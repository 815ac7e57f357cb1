//! Facts about searching and filtering sequences, and the proofs that the
//! store operations keep a database valid.
use crate::model::{
    cards_valid, create, create_fits, deck_with_id, first_index, fresh_cards, insert_categories,
    keep, max_id, named, not_of_deck, of_deck, resolve, resolve_fits, seed_deck, seed_decks,
    total_cards, update, update_fits, well_formed, CardRow, Db, SeedRow,
};
use vstd::prelude::*;

verus! {

/// `first_index` returns the least index whose element satisfies `p`, and
/// `None` exactly where no element does.
pub proof fn lemma_first_index<T>(s: Seq<T>, p: spec_fn(T) -> bool)
    ensures
        match first_index(s, p) {
            Some(i) => 0 <= i < s.len() && p(s[i]) && forall|j: int|
                0 <= j < i ==> !p(#[trigger] s[j]),
            None => forall|j: int| 0 <= j < s.len() ==> !p(#[trigger] s[j]),
        },
    decreases s.len(),
{
    if s.len() > 0 {
        let front = s.drop_last();
        lemma_first_index(front, p);
        assert(forall|j: int| 0 <= j < front.len() ==> front[j] == s[j]);
    }
}

/// The least index whose element satisfies `p` is what `first_index` returns.
pub proof fn lemma_first_index_is<T>(s: Seq<T>, p: spec_fn(T) -> bool, i: int)
    requires
        0 <= i < s.len(),
        p(s[i]),
        forall|j: int| 0 <= j < i ==> !p(#[trigger] s[j]),
    ensures
        first_index(s, p) == Some(i),
{
    lemma_first_index(s, p);
}

/// Where no element satisfies `p`, `first_index` finds none.
pub proof fn lemma_first_index_none<T>(s: Seq<T>, p: spec_fn(T) -> bool)
    requires
        forall|j: int| 0 <= j < s.len() ==> !p(#[trigger] s[j]),
    ensures
        first_index(s, p) is None,
{
    lemma_first_index(s, p);
}

/// Appending an element does not move a match that was there before.
pub proof fn lemma_first_index_push<T>(s: Seq<T>, p: spec_fn(T) -> bool, x: T)
    ensures
        first_index(s, p) is Some ==> first_index(s.push(x), p) == first_index(s, p),
        first_index(s, p) is None && p(x) ==> first_index(s.push(x), p) == Some(s.len() as int),
        first_index(s, p) is None && !p(x) ==> first_index(s.push(x), p) is None,
{
    assert(s.push(x).drop_last() =~= s);
}

/// Filtering distributes over concatenation.
pub proof fn lemma_keep_concat<T>(a: Seq<T>, b: Seq<T>, p: spec_fn(T) -> bool)
    ensures
        keep(a + b, p) == keep(a, p) + keep(b, p),
    decreases b.len(),
{
    if b.len() == 0 {
        assert(a + b =~= a);
        assert(keep(a, p) + keep(b, p) =~= keep(a, p));
    } else {
        lemma_keep_concat(a, b.drop_last(), p);
        assert((a + b).drop_last() =~= a + b.drop_last());
        assert((a + b).last() == b.last());
        if p(b.last()) {
            assert(keep(a, p) + keep(b, p) =~= (keep(a, p) + keep(b.drop_last(), p)).push(
                b.last(),
            ));
        }
    }
}

/// Where every element satisfies `p`, filtering keeps the whole sequence.
pub proof fn lemma_keep_all<T>(s: Seq<T>, p: spec_fn(T) -> bool)
    requires
        forall|j: int| 0 <= j < s.len() ==> p(#[trigger] s[j]),
    ensures
        keep(s, p) == s,
    decreases s.len(),
{
    if s.len() > 0 {
        let front = s.drop_last();
        assert(forall|j: int| 0 <= j < front.len() ==> front[j] == s[j]);
        lemma_keep_all(front, p);
        assert(front.push(s.last()) =~= s);
    }
}

/// Where no element satisfies `p`, filtering keeps nothing.
pub proof fn lemma_keep_none<T>(s: Seq<T>, p: spec_fn(T) -> bool)
    requires
        forall|j: int| 0 <= j < s.len() ==> !p(#[trigger] s[j]),
    ensures
        keep(s, p) == Seq::<T>::empty(),
    decreases s.len(),
{
    if s.len() > 0 {
        let front = s.drop_last();
        assert(forall|j: int| 0 <= j < front.len() ==> front[j] == s[j]);
        lemma_keep_none(front, p);
    }
}

/// Every element that filtering keeps satisfies `p`.
pub proof fn lemma_keep_satisfies<T>(s: Seq<T>, p: spec_fn(T) -> bool)
    ensures
        forall|j: int| 0 <= j < keep(s, p).len() ==> p(#[trigger] keep(s, p)[j]),
    decreases s.len(),
{
    if s.len() > 0 {
        let k = keep(s.drop_last(), p);
        lemma_keep_satisfies(s.drop_last(), p);
        assert forall|j: int| 0 <= j < keep(s, p).len() implies p(#[trigger] keep(s, p)[j]) by {
            if j < k.len() {
                assert(keep(s, p)[j] == k[j]);
            }
        }
    }
}

/// Filtering a valid card table leaves a valid, no longer card table.
pub proof fn lemma_keep_cards_valid(
    s: Seq<CardRow>,
    p: spec_fn(CardRow) -> bool,
    next_card: int,
    next_deck: int,
)
    requires
        cards_valid(s, next_card, next_deck),
    ensures
        cards_valid(keep(s, p), next_card, next_deck),
        keep(s, p).len() <= s.len(),
    decreases s.len(),
{
    if s.len() > 0 {
        let front = s.drop_last();
        let last = s.last();
        assert(forall|j: int| 0 <= j < front.len() ==> front[j] == s[j]);
        assert(last == s[s.len() - 1]);
        assert(cards_valid(front, last.id, next_deck));
        lemma_keep_cards_valid(front, p, last.id, next_deck);
        let k = keep(front, p);
        assert(forall|j: int| 0 <= j < k.len() ==> 1 <= (#[trigger] k[j]).id < next_card);
    }
}

/// After the cards of deck `d` were deleted, deck `d` has none and every
/// other deck has the cards it had.
pub proof fn lemma_removed_deck(cards: Seq<CardRow>, d: int, other: int)
    ensures
        keep(keep(cards, not_of_deck(d)), of_deck(other)) == if other == d {
            Seq::<CardRow>::empty()
        } else {
            keep(cards, of_deck(other))
        },
    decreases cards.len(),
{
    if cards.len() > 0 {
        let front = cards.drop_last();
        let last = cards.last();
        lemma_removed_deck(front, d, other);
        if last.deck_id != d {
            assert(keep(front, not_of_deck(d)).push(last).drop_last() =~= keep(
                front,
                not_of_deck(d),
            ));
        }
    }
}

/// The cards of deck `other` after `drafts` were inserted for deck `d`.
pub proof fn lemma_inserted_cards(
    cards: Seq<CardRow>,
    first_id: int,
    d: int,
    drafts: Seq<(Seq<char>, Seq<char>)>,
    other: int,
)
    ensures
        keep(cards + fresh_cards(first_id, d, drafts), of_deck(other)) == if other == d {
            keep(cards, of_deck(other)) + fresh_cards(first_id, d, drafts)
        } else {
            keep(cards, of_deck(other))
        },
{
    let fresh = fresh_cards(first_id, d, drafts);
    lemma_keep_concat(cards, fresh, of_deck(other));
    if other == d {
        lemma_keep_all(fresh, of_deck(other));
    } else {
        lemma_keep_none(fresh, of_deck(other));
        assert(keep(cards, of_deck(other)) + Seq::<CardRow>::empty() =~= keep(
            cards,
            of_deck(other),
        ));
    }
}

/// Resolving a category keeps the database valid.
pub proof fn lemma_resolve_valid(db: Db, name: Seq<char>, now: int)
    requires
        well_formed(db),
        resolve_fits(db, name),
    ensures
        well_formed(resolve(db, name, now)),
{
}

/// Inserting cards for deck `d` into a valid card table leaves it valid.
pub proof fn lemma_inserted_valid(
    cards: Seq<CardRow>,
    next_card: int,
    next_deck: int,
    d: int,
    drafts: Seq<(Seq<char>, Seq<char>)>,
    deck_bound: int,
)
    requires
        cards_valid(cards, next_card, next_deck),
        1 <= next_card,
        d < deck_bound,
        next_deck <= deck_bound,
    ensures
        cards_valid(
            cards + fresh_cards(next_card, d, drafts),
            next_card + drafts.len(),
            deck_bound,
        ),
{
    let fresh = fresh_cards(next_card, d, drafts);
    let all = cards + fresh;
    assert forall|i: int| 0 <= i < all.len() implies 1 <= (#[trigger] all[i]).id < next_card
        + drafts.len() && all[i].deck_id < deck_bound && (i < cards.len() ==> all[i].id
        < next_card) && (i >= cards.len() ==> all[i].id == next_card + (i - cards.len())) by {
        if i < cards.len() {
            assert(all[i] == cards[i]);
        } else {
            assert(all[i] == fresh[i - cards.len()]);
        }
    }
}

/// Creating a deck keeps the database valid.
pub proof fn lemma_create_valid(
    db: Db,
    title: Seq<char>,
    category: Seq<char>,
    drafts: Seq<(Seq<char>, Seq<char>)>,
    now: int,
)
    requires
        well_formed(db),
        create_fits(db, category, drafts.len() as int),
    ensures
        well_formed(create(db, title, category, drafts, now)),
{
    let r = resolve(db, category, now);
    lemma_resolve_valid(db, category, now);
    lemma_first_index(db.categories, named(category));
    let out = create(db, title, category, drafts, now);
    assert forall|i: int|
        0 <= i < out.decks.len() && (#[trigger] out.decks[i]).category_id is Some implies out.decks[i].category_id->0
        < out.next_category_id by {
        if i < r.decks.len() {
            assert(out.decks[i] == r.decks[i]);
        }
    }
    lemma_inserted_valid(
        r.cards,
        r.next_card_id,
        r.next_deck_id,
        r.next_deck_id,
        drafts,
        r.next_deck_id + 1,
    );
    assert forall|i: int| 0 <= i < out.decks.len() implies (#[trigger] out.decks[i]).card_count
        == keep(out.cards, of_deck(out.decks[i].id)).len() by {
        lemma_inserted_cards(r.cards, r.next_card_id, r.next_deck_id, drafts, out.decks[i].id);
        if i < r.decks.len() {
            assert(out.decks[i] == r.decks[i]);
        } else {
            lemma_keep_none(r.cards, of_deck(r.next_deck_id));
        }
    }
}

/// Updating a deck keeps the database valid.
pub proof fn lemma_update_valid(
    db: Db,
    deck_id: int,
    title: Seq<char>,
    category: Seq<char>,
    drafts: Seq<(Seq<char>, Seq<char>)>,
    now: int,
)
    requires
        well_formed(db),
        update_fits(db, deck_id, category, drafts.len() as int),
    ensures
        well_formed(update(db, deck_id, title, category, drafts, now)),
{
    let r = resolve(db, category, now);
    lemma_resolve_valid(db, category, now);
    lemma_first_index(db.categories, named(category));
    let out = update(db, deck_id, title, category, drafts, now);
    lemma_first_index(r.decks, deck_with_id(deck_id));
    match first_index(r.decks, deck_with_id(deck_id)) {
        None => {},
        Some(k) => {
            assert forall|i: int|
                0 <= i < out.decks.len() && (#[trigger] out.decks[i]).category_id is Some implies out.decks[i].category_id->0
                < out.next_category_id by {
                if i != k {
                    assert(out.decks[i] == r.decks[i]);
                }
            }
            let kept = keep(r.cards, not_of_deck(deck_id));
            lemma_keep_cards_valid(r.cards, not_of_deck(deck_id), r.next_card_id, r.next_deck_id);
            lemma_inserted_valid(
                kept,
                r.next_card_id,
                r.next_deck_id,
                deck_id,
                drafts,
                r.next_deck_id,
            );
            assert forall|i: int| 0 <= i < out.decks.len() implies (
            #[trigger] out.decks[i]).card_count == keep(out.cards, of_deck(out.decks[i].id)).len() by {
                let id = out.decks[i].id;
                lemma_inserted_cards(kept, r.next_card_id, deck_id, drafts, id);
                lemma_removed_deck(r.cards, deck_id, id);
                if i != k {
                    assert(out.decks[i] == r.decks[i]);
                    assert(r.decks[i].id != r.decks[k].id);
                }
            }
        },
    }
}

/// Inserting categories keeps the database valid and touches nothing but
/// the category table.
pub proof fn lemma_insert_categories(db: Db, names: Seq<Seq<char>>, now: int)
    requires
        well_formed(db),
        db.next_category_id + names.len() <= max_id(),
    ensures
        ({
            let out = insert_categories(db, names, now);
            &&& well_formed(out)
            &&& out.categories.len() == db.categories.len() + names.len()
            &&& out.next_category_id == db.next_category_id + names.len()
            &&& out.decks == db.decks
            &&& out.cards == db.cards
            &&& out.progress == db.progress
            &&& out.seeded == db.seeded
            &&& out.next_deck_id == db.next_deck_id
            &&& out.next_card_id == db.next_card_id
        }),
    decreases names.len(),
{
    if names.len() > 0 {
        lemma_insert_categories(db, names.drop_last(), now);
    }
}

/// Inserting one baseline deck keeps the database valid.
pub proof fn lemma_seed_deck_valid(db: Db, d: SeedRow)
    requires
        well_formed(db),
        db.next_deck_id < max_id(),
        db.next_card_id + d.cards.len() <= max_id(),
    ensures
        well_formed(seed_deck(db, d)),
{
    let out = seed_deck(db, d);
    lemma_first_index(db.categories, named(d.category));
    lemma_inserted_valid(
        db.cards,
        db.next_card_id,
        db.next_deck_id,
        db.next_deck_id,
        d.cards,
        db.next_deck_id + 1,
    );
    assert forall|i: int|
        0 <= i < out.decks.len() && (#[trigger] out.decks[i]).category_id is Some implies out.decks[i].category_id->0
        < out.next_category_id by {
        if i < db.decks.len() {
            assert(out.decks[i] == db.decks[i]);
        }
    }
    assert forall|i: int| 0 <= i < out.decks.len() implies (#[trigger] out.decks[i]).card_count
        == keep(out.cards, of_deck(out.decks[i].id)).len() by {
        lemma_inserted_cards(db.cards, db.next_card_id, db.next_deck_id, d.cards, out.decks[i].id);
        if i < db.decks.len() {
            assert(out.decks[i] == db.decks[i]);
        } else {
            lemma_keep_none(db.cards, of_deck(db.next_deck_id));
        }
    }
}

/// Inserting the baseline decks keeps the database valid, and uses one deck
/// identifier per deck and one card identifier per card.
pub proof fn lemma_seed_decks(db: Db, decks: Seq<SeedRow>)
    requires
        well_formed(db),
        db.next_deck_id + decks.len() <= max_id(),
        db.next_card_id + total_cards(decks) <= max_id(),
    ensures
        ({
            let out = seed_decks(db, decks);
            &&& well_formed(out)
            &&& out.decks.len() == db.decks.len() + decks.len()
            &&& out.next_deck_id == db.next_deck_id + decks.len()
            &&& out.next_card_id == db.next_card_id + total_cards(decks)
            &&& out.categories == db.categories
            &&& out.next_category_id == db.next_category_id
            &&& out.seeded == db.seeded
        }),
    decreases decks.len(),
{
    if decks.len() > 0 {
        lemma_total_cards_prefix(decks, decks.len() - 1);
        assert(decks.subrange(0, decks.len() - 1) =~= decks.drop_last());
        lemma_seed_decks(db, decks.drop_last());
        lemma_seed_deck_valid(seed_decks(db, decks.drop_last()), decks.last());
    }
}

/// The decks up to `k` hold at most as many cards as all the decks, and no
/// fewer than none.
pub proof fn lemma_total_cards_prefix(decks: Seq<SeedRow>, k: int)
    requires
        0 <= k <= decks.len(),
    ensures
        0 <= total_cards(decks.subrange(0, k)) <= total_cards(decks),
    decreases decks.len(),
{
    if k == decks.len() {
        assert(decks.subrange(0, k) =~= decks);
        if decks.len() > 0 {
            lemma_total_cards_prefix(decks.drop_last(), k - 1);
            assert(decks.drop_last().subrange(0, k - 1) =~= decks.drop_last());
        }
    } else {
        lemma_total_cards_prefix(decks.drop_last(), k);
        assert(decks.drop_last().subrange(0, k) =~= decks.subrange(0, k));
    }
}

} // verus!
