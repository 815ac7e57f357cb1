//! What holds of the store operations taken together.
use crate::lemmas::{
    lemma_first_index, lemma_first_index_is, lemma_first_index_none, lemma_first_index_push,
    lemma_insert_categories, lemma_inserted_cards, lemma_keep_satisfies, lemma_removed_deck,
    lemma_seed_decks,
};
use crate::model::{
    category_name_of, category_with_id, create, create_fits, deck_with_id, detail, first_index,
    fresh_cards, insert_categories, keep, list, loaded, named, names_distinct, not_of_deck,
    progress_for, resolve, resolved_id, seed, seed_fits, update, update_fits, well_formed, CardRow,
    CategoryRow, Db, SeedRow,
};
use vstd::prelude::*;

verus! {

/// After a name was resolved, the identifier it resolved to names a category
/// of that name.
pub proof fn law_resolved_category_has_name(db: Db, name: Seq<char>, now: int)
    requires
        well_formed(db),
    ensures
        category_name_of(resolve(db, name, now).categories, Some(resolved_id(db, name))) == Some(
            name,
        ),
{
    let out = resolve(db, name, now);
    let id = resolved_id(db, name);
    lemma_first_index(db.categories, named(name));
    match first_index(db.categories, named(name)) {
        Some(i) => {
            lemma_first_index_is(db.categories, category_with_id(id), i);
        },
        None => {
            lemma_first_index_none(db.categories, category_with_id(id));
            lemma_first_index_push(db.categories, category_with_id(id), out.categories.last());
            assert(out.categories[db.categories.len() as int].name == name);
        },
    }
}

/// Resolving a name a second time changes nothing and yields the same
/// identifier, whatever the time.
pub proof fn law_resolve_idempotent(db: Db, name: Seq<char>, first: int, second: int)
    ensures
        resolve(resolve(db, name, first), name, second) == resolve(db, name, first),
        resolved_id(resolve(db, name, first), name) == resolved_id(db, name),
        first_index(resolve(db, name, first).categories, named(name)) is Some,
{
    let out = resolve(db, name, first);
    if first_index(db.categories, named(name)) is None {
        lemma_first_index_push(db.categories, named(name), out.categories.last());
    }
}

/// Resolving a name never gives two categories the same name.
pub proof fn law_resolve_keeps_names_distinct(db: Db, name: Seq<char>, now: int)
    requires
        names_distinct(db.categories),
    ensures
        names_distinct(resolve(db, name, now).categories),
{
    lemma_first_index(db.categories, named(name));
}

/// A category that exists keeps its identifier's name when another name is resolved.
proof fn lemma_category_name_stable(db: Db, name: Seq<char>, now: int, category_id: Option<int>)
    requires
        well_formed(db),
        category_id is Some ==> category_id->0 < db.next_category_id,
    ensures
        category_name_of(resolve(db, name, now).categories, category_id) == category_name_of(
            db.categories,
            category_id,
        ),
{
    if category_id is Some && first_index(db.categories, named(name)) is None {
        let added = CategoryRow {
            id: db.next_category_id,
            name,
            created_at: now,
            updated_at: now,
        };
        lemma_first_index(db.categories, category_with_id(category_id->0));
        lemma_first_index_push(db.categories, category_with_id(category_id->0), added);
        assert(resolve(db, name, now).categories == db.categories.push(added));
    }
}

/// After a deck was created the deck list starts with its summary: the new
/// identifier, the title, as card count the number of cards supplied, the
/// category name supplied, no description and a progress of 0. The summaries
/// that were listed before follow it unchanged.
pub proof fn law_created_deck_is_listed(
    db: Db,
    title: Seq<char>,
    category: Seq<char>,
    drafts: Seq<(Seq<char>, Seq<char>)>,
    now: int,
)
    requires
        well_formed(db),
        create_fits(db, category, drafts.len() as int),
    ensures
        ({
            let out = list(create(db, title, category, drafts, now));
            &&& out.len() == list(db).len() + 1
            &&& out[0].id == db.next_deck_id
            &&& out[0].title == title
            &&& out[0].card_count == drafts.len()
            &&& out[0].category_name == Some(category)
            &&& out[0].progress == 0
            &&& out[0].description is None
            &&& forall|i: int| 0 <= i < list(db).len() ==> #[trigger] out[i + 1] == list(db)[i]
        }),
{
    let r = resolve(db, category, now);
    let after = create(db, title, category, drafts, now);
    let out = list(after);
    law_resolved_category_has_name(db, category, now);
    lemma_first_index_none(db.progress, progress_for(db.next_deck_id));
    assert forall|i: int| 0 <= i < list(db).len() implies #[trigger] out[i + 1] == list(db)[i] by {
        let d = db.decks[db.decks.len() - 1 - i];
        assert(after.decks[after.decks.len() - 1 - (i + 1)] == d);
        lemma_category_name_stable(db, category, now, d.category_id);
    }
}

/// After a deck that exists was updated, its detail holds exactly the cards
/// supplied, in their order, under the new title and category; no card that
/// the deck had before is left in the card table.
pub proof fn law_update_replaces_cards(
    db: Db,
    deck_id: int,
    title: Seq<char>,
    category: Seq<char>,
    drafts: Seq<(Seq<char>, Seq<char>)>,
    now: int,
)
    requires
        well_formed(db),
        update_fits(db, deck_id, category, drafts.len() as int),
        first_index(db.decks, deck_with_id(deck_id)) is Some,
    ensures
        ({
            let out = update(db, deck_id, title, category, drafts, now);
            &&& detail(out, deck_id) is Some
            &&& detail(out, deck_id)->0.title == title
            &&& detail(out, deck_id)->0.category_name == Some(category)
            &&& detail(out, deck_id)->0.cards == fresh_cards(db.next_card_id, deck_id, drafts)
            &&& detail(out, deck_id)->0.cards.len() == drafts.len()
            &&& forall|i: int|
                0 <= i < drafts.len() ==> (#[trigger] detail(out, deck_id)->0.cards[i]).front
                    == drafts[i].0 && detail(out, deck_id)->0.cards[i].back == drafts[i].1
            &&& forall|i: int|
                0 <= i < out.cards.len() && (#[trigger] out.cards[i]).deck_id == deck_id
                    ==> out.cards[i].id >= db.next_card_id
        }),
{
    let r = resolve(db, category, now);
    let out = update(db, deck_id, title, category, drafts, now);
    lemma_first_index(r.decks, deck_with_id(deck_id));
    let k = first_index(r.decks, deck_with_id(deck_id))->0;
    assert forall|j: int| 0 <= j < k implies !deck_with_id(deck_id)(#[trigger] out.decks[j]) by {
        assert(out.decks[j] == r.decks[j]);
    }
    lemma_first_index_is(out.decks, deck_with_id(deck_id), k);
    law_resolved_category_has_name(db, category, now);
    let kept = keep(r.cards, not_of_deck(deck_id));
    let fresh = fresh_cards(r.next_card_id, deck_id, drafts);
    lemma_inserted_cards(kept, r.next_card_id, deck_id, drafts, deck_id);
    lemma_removed_deck(r.cards, deck_id, deck_id);
    assert(Seq::<CardRow>::empty() + fresh =~= fresh);
    lemma_keep_satisfies(r.cards, not_of_deck(deck_id));
    assert forall|i: int|
        0 <= i < out.cards.len() && (#[trigger] out.cards[i]).deck_id == deck_id implies out.cards[i].id
        >= db.next_card_id by {
        if i < kept.len() {
            assert(out.cards[i] == kept[i]);
            assert(not_of_deck(deck_id)(kept[i]));
        } else {
            assert(out.cards[i] == fresh[i - kept.len()]);
        }
    }
}

/// Creating a deck never gives two categories the same name.
pub proof fn law_create_keeps_names_distinct(
    db: Db,
    title: Seq<char>,
    category: Seq<char>,
    drafts: Seq<(Seq<char>, Seq<char>)>,
    now: int,
)
    requires
        names_distinct(db.categories),
    ensures
        names_distinct(create(db, title, category, drafts, now).categories),
{
    law_resolve_keeps_names_distinct(db, category, now);
}

/// Updating a deck never gives two categories the same name.
pub proof fn law_update_keeps_names_distinct(
    db: Db,
    deck_id: int,
    title: Seq<char>,
    category: Seq<char>,
    drafts: Seq<(Seq<char>, Seq<char>)>,
    now: int,
)
    requires
        names_distinct(db.categories),
    ensures
        names_distinct(update(db, deck_id, title, category, drafts, now).categories),
{
    law_resolve_keeps_names_distinct(db, category, now);
}

/// An update leaves every other deck's detail as it was.
pub proof fn law_update_keeps_other_decks(
    db: Db,
    deck_id: int,
    title: Seq<char>,
    category: Seq<char>,
    drafts: Seq<(Seq<char>, Seq<char>)>,
    now: int,
    other: int,
)
    requires
        well_formed(db),
        other != deck_id,
    ensures
        detail(update(db, deck_id, title, category, drafts, now), other) == detail(db, other),
{
    let r = resolve(db, category, now);
    let out = update(db, deck_id, title, category, drafts, now);
    lemma_first_index(db.decks, deck_with_id(other));
    lemma_first_index(r.decks, deck_with_id(deck_id));
    match first_index(r.decks, deck_with_id(deck_id)) {
        None => {},
        Some(k) => {
            let kept = keep(r.cards, not_of_deck(deck_id));
            lemma_inserted_cards(kept, r.next_card_id, deck_id, drafts, other);
            lemma_removed_deck(r.cards, deck_id, other);
            match first_index(db.decks, deck_with_id(other)) {
                Some(i) => {
                    assert forall|j: int| 0 <= j < i implies !deck_with_id(other)(
                        #[trigger] out.decks[j],
                    ) by {
                        if j != k {
                            assert(out.decks[j] == r.decks[j]);
                        }
                    }
                    assert(out.decks[i] == r.decks[i]);
                    lemma_first_index_is(out.decks, deck_with_id(other), i);
                },
                None => {
                    assert forall|j: int| 0 <= j < out.decks.len() implies !deck_with_id(other)(
                        #[trigger] out.decks[j],
                    ) by {
                        if j != k {
                            assert(out.decks[j] == r.decks[j]);
                        }
                    }
                    lemma_first_index_none(out.decks, deck_with_id(other));
                },
            }
        },
    }
    match first_index(db.decks, deck_with_id(other)) {
        Some(i) => {
            lemma_category_name_stable(db, category, now, db.decks[i].category_id);
        },
        None => {},
    }
}

/// Two decks created one after the other under the same category name share
/// one category: the second creation adds no category row, and both decks
/// refer to the same category identifier.
pub proof fn law_same_name_same_category(
    db: Db,
    category: Seq<char>,
    first_title: Seq<char>,
    first_drafts: Seq<(Seq<char>, Seq<char>)>,
    first_now: int,
    second_title: Seq<char>,
    second_drafts: Seq<(Seq<char>, Seq<char>)>,
    second_now: int,
)
    ensures
        ({
            let a = create(db, first_title, category, first_drafts, first_now);
            let b = create(a, second_title, category, second_drafts, second_now);
            &&& b.categories == a.categories
            &&& b.decks.len() == a.decks.len() + 1
            &&& a.decks.len() >= 1
            &&& b.decks[b.decks.len() - 1].category_id == b.decks[b.decks.len() - 2].category_id
            &&& b.decks[b.decks.len() - 1].category_id == Some(resolved_id(db, category))
        }),
{
    law_resolve_idempotent(db, category, first_now, second_now);
}

/// Inserting categories appends one row per name, in order, and keeps the
/// rows that were there.
pub proof fn law_inserted_categories(db: Db, names: Seq<Seq<char>>, now: int)
    ensures
        ({
            let out = insert_categories(db, names, now).categories;
            &&& out.len() == db.categories.len() + names.len()
            &&& forall|i: int| 0 <= i < db.categories.len() ==> #[trigger] out[i] == db.categories[i]
            &&& forall|i: int|
                0 <= i < names.len() ==> (#[trigger] out[db.categories.len() + i]).name == names[i]
        }),
    decreases names.len(),
{
    if names.len() > 0 {
        law_inserted_categories(db, names.drop_last(), now);
        let before = insert_categories(db, names.drop_last(), now).categories;
        let out = insert_categories(db, names, now).categories;
        assert forall|i: int| 0 <= i < names.len() implies (#[trigger] out[db.categories.len()
            + i]).name == names[i] by {
            if i < names.len() - 1 {
                assert(out[db.categories.len() + i] == before[db.categories.len() + i]);
                assert(names.drop_last()[i] == names[i]);
            }
        }
    }
}

/// Seeding a store that has no category, with names that differ from each
/// other, gives no two categories the same name.
pub proof fn law_seed_of_fresh_store_keeps_names_distinct(
    db: Db,
    names: Seq<Seq<char>>,
    decks: Seq<SeedRow>,
    now: int,
)
    requires
        well_formed(db),
        seed_fits(db, names, decks),
        db.categories.len() == 0,
        forall|i: int, j: int| 0 <= i < j < names.len() ==> #[trigger] names[i] != #[trigger] names[j],
    ensures
        names_distinct(seed(db, names, decks, now).categories),
{
    if !db.seeded {
        let mid = insert_categories(db, names, now);
        law_inserted_categories(db, names, now);
        lemma_insert_categories(db, names, now);
        lemma_seed_decks(mid, decks);
        assert forall|i: int, j: int| 0 <= i < j < mid.categories.len() implies (
        #[trigger] mid.categories[i]).name != (#[trigger] mid.categories[j]).name by {
            assert(mid.categories[0 + i].name == names[i]);
            assert(mid.categories[0 + j].name == names[j]);
        }
    }
}

/// The tables of a valid database, read back from storage, make up a valid
/// database again: the same rows, the same next category and deck
/// identifiers, and a next card identifier that is no larger.
pub proof fn law_tables_load_back(db: Db)
    requires
        well_formed(db),
    ensures
        ({
            let back = loaded(db.categories, db.decks, db.cards, db.progress, db.seeded);
            &&& well_formed(back)
            &&& back.next_category_id == db.next_category_id
            &&& back.next_deck_id == db.next_deck_id
            &&& back.next_card_id <= db.next_card_id
            &&& list(back) == list(db)
            &&& forall|deck_id: int| detail(back, deck_id) == detail(db, deck_id)
        }),
{
    let back = loaded(db.categories, db.decks, db.cards, db.progress, db.seeded);
    if db.cards.len() > 0 {
        let last = db.cards.len() - 1;
        assert(db.cards[last].id >= 1);
        assert forall|i: int| 0 <= i < db.cards.len() implies (#[trigger] db.cards[i]).id
            < back.next_card_id by {
            if i < last {
                assert(db.cards[i].id < db.cards[last].id);
            }
        }
    }
    assert(list(back) =~= list(db));
}

/// Seeding a second time changes nothing: the deck list after the second
/// run is the list after the first.
pub proof fn law_seed_runs_once(
    db: Db,
    names: Seq<Seq<char>>,
    decks: Seq<SeedRow>,
    first_now: int,
    second_now: int,
)
    ensures
        seed(db, names, decks, first_now).seeded,
        seed(seed(db, names, decks, first_now), names, decks, second_now) == seed(
            db,
            names,
            decks,
            first_now,
        ),
        list(seed(seed(db, names, decks, first_now), names, decks, second_now)) == list(
            seed(db, names, decks, first_now),
        ),
{
}

} // verus!
