//! The store: the tables held in memory, and the operations on them. Every
//! operation either does all of its work or leaves the store as it was.
use crate::baseline::{baseline_categories, baseline_decks, baseline_names, baseline_rows};
use crate::lemmas::{
    lemma_create_valid, lemma_first_index_is, lemma_first_index_none, lemma_insert_categories,
    lemma_keep_cards_valid, lemma_resolve_valid, lemma_seed_decks, lemma_total_cards_prefix,
    lemma_update_valid,
};
use crate::model::{
    category_name_of, category_with_id, create, create_fits, deck_with_id, detail, empty_db,
    first_index, fresh_cards, insert_categories, keep, list, loaded, max_id, named,
    next_card_after, next_category_after, next_deck_after, not_of_deck, of_deck, progress_for,
    progress_of, resolve, resolve_fits, resolved_id, seed, seed_decks, seed_fits, summary_of,
    total_cards, update, update_fits, well_formed, Db, ProgressRow, SeedRow,
};
use crate::types::{
    card_rows, category_rows, copy_card, copy_category, copy_deck, copy_text, deck_rows, drafts,
    opt_text, progress_rows, seed_rows, summary_rows, texts, Card, Category, Deck, DeckDetail,
    DeckProgress, DeckSummary, NewCard, SeedDeck, StoreError,
};
use vstd::prelude::*;

verus! {

/// The deck store.
pub struct Store {
    pub(crate) categories: Vec<Category>,
    pub(crate) decks: Vec<Deck>,
    pub(crate) cards: Vec<Card>,
    pub(crate) progress: Vec<DeckProgress>,
    pub(crate) seeded: bool,
    pub(crate) next_category_id: i64,
    pub(crate) next_deck_id: i64,
    pub(crate) next_card_id: i64,
}

impl View for Store {
    type V = Db;

    closed spec fn view(&self) -> Db {
        Db {
            categories: category_rows(self.categories@),
            decks: deck_rows(self.decks@),
            cards: card_rows(self.cards@),
            progress: progress_rows(self.progress@),
            seeded: self.seeded,
            next_category_id: self.next_category_id as int,
            next_deck_id: self.next_deck_id as int,
            next_card_id: self.next_card_id as int,
        }
    }
}

/// The error, if any, with which `create_deck` answers.
pub open spec fn create_error(db: Db, category: Seq<char>, n: int, card_count: int) -> Option<
    StoreError,
> {
    if card_count != n {
        Some(StoreError::CardCountMismatch)
    } else if !create_fits(db, category, n) {
        Some(StoreError::IdsExhausted)
    } else {
        None
    }
}

/// The error, if any, with which `update_deck` answers.
pub open spec fn update_error(
    db: Db,
    deck_id: int,
    category: Seq<char>,
    n: int,
    card_count: int,
) -> Option<StoreError> {
    if card_count != n {
        Some(StoreError::CardCountMismatch)
    } else if !update_fits(db, deck_id, category, n) {
        Some(StoreError::IdsExhausted)
    } else {
        None
    }
}

/// The index of the first category named `name`.
fn find_category(table: &Vec<Category>, name: &String) -> (r: Option<usize>)
    ensures
        match r {
            Some(i) => i < table.len() && first_index(category_rows(table@), named(name@))
                == Some(i as int),
            None => first_index(category_rows(table@), named(name@)) is None,
        },
{
    let ghost rows = category_rows(table@);
    let mut i: usize = 0;
    while i < table.len()
        invariant
            i <= table.len(),
            rows == category_rows(table@),
            forall|j: int| 0 <= j < i ==> !named(name@)(#[trigger] rows[j]),
        decreases table.len() - i,
    {
        if table[i].name == *name {
            proof {
                lemma_first_index_is(rows, named(name@), i as int);
            }
            return Some(i);
        }
        i += 1;
    }
    proof {
        lemma_first_index_none(rows, named(name@));
    }
    None
}

/// The index of the category with identifier `id`.
fn find_category_by_id(table: &Vec<Category>, id: i64) -> (r: Option<usize>)
    ensures
        match r {
            Some(i) => i < table.len() && first_index(
                category_rows(table@),
                category_with_id(id as int),
            ) == Some(i as int),
            None => first_index(category_rows(table@), category_with_id(id as int)) is None,
        },
{
    let ghost rows = category_rows(table@);
    let mut i: usize = 0;
    while i < table.len()
        invariant
            i <= table.len(),
            rows == category_rows(table@),
            forall|j: int| 0 <= j < i ==> !category_with_id(id as int)(#[trigger] rows[j]),
        decreases table.len() - i,
    {
        if table[i].id == id {
            proof {
                lemma_first_index_is(rows, category_with_id(id as int), i as int);
            }
            return Some(i);
        }
        i += 1;
    }
    proof {
        lemma_first_index_none(rows, category_with_id(id as int));
    }
    None
}

/// The index of the deck with identifier `id`.
fn find_deck(table: &Vec<Deck>, id: i64) -> (r: Option<usize>)
    ensures
        match r {
            Some(i) => i < table.len() && first_index(deck_rows(table@), deck_with_id(id as int))
                == Some(i as int),
            None => first_index(deck_rows(table@), deck_with_id(id as int)) is None,
        },
{
    let ghost rows = deck_rows(table@);
    let mut i: usize = 0;
    while i < table.len()
        invariant
            i <= table.len(),
            rows == deck_rows(table@),
            forall|j: int| 0 <= j < i ==> !deck_with_id(id as int)(#[trigger] rows[j]),
        decreases table.len() - i,
    {
        if table[i].id == id {
            proof {
                lemma_first_index_is(rows, deck_with_id(id as int), i as int);
            }
            return Some(i);
        }
        i += 1;
    }
    proof {
        lemma_first_index_none(rows, deck_with_id(id as int));
    }
    None
}

/// The progress recorded for deck `deck_id`, 0 where none is.
fn lookup_progress(table: &Vec<DeckProgress>, deck_id: i64) -> (r: i64)
    ensures
        r as int == progress_of(progress_rows(table@), deck_id as int),
{
    let ghost rows = progress_rows(table@);
    let mut i: usize = 0;
    while i < table.len()
        invariant
            i <= table.len(),
            rows == progress_rows(table@),
            forall|j: int| 0 <= j < i ==> !progress_for(deck_id as int)(#[trigger] rows[j]),
        decreases table.len() - i,
    {
        if table[i].deck_id == deck_id {
            proof {
                lemma_first_index_is(rows, progress_for(deck_id as int), i as int);
            }
            return table[i].progress;
        }
        i += 1;
    }
    proof {
        lemma_first_index_none(rows, progress_for(deck_id as int));
    }
    0
}

/// The name of the category that `category_id` refers to, if it refers to one.
fn lookup_category_name(table: &Vec<Category>, category_id: Option<i64>) -> (r: Option<String>)
    ensures
        opt_text(r) == category_name_of(
            category_rows(table@),
            match category_id {
                Some(id) => Some(id as int),
                None => None,
            },
        ),
{
    match category_id {
        None => None,
        Some(id) => match find_category_by_id(table, id) {
            Some(i) => Some(table[i].name.clone()),
            None => None,
        },
    }
}

/// Copies of the cards of deck `deck_id` where `own` is set, of all the
/// other cards where it is not, in table order.
fn select_cards(table: &Vec<Card>, deck_id: i64, own: bool) -> (r: Vec<Card>)
    ensures
        card_rows(r@) == keep(
            card_rows(table@),
            if own {
                of_deck(deck_id as int)
            } else {
                not_of_deck(deck_id as int)
            },
        ),
{
    let ghost rows = card_rows(table@);
    let ghost p = if own {
        of_deck(deck_id as int)
    } else {
        not_of_deck(deck_id as int)
    };
    let mut out: Vec<Card> = Vec::new();
    let mut i: usize = 0;
    assert(card_rows(out@) =~= keep(rows.subrange(0, 0), p));
    while i < table.len()
        invariant
            i <= table.len(),
            rows == card_rows(table@),
            p == if own {
                of_deck(deck_id as int)
            } else {
                not_of_deck(deck_id as int)
            },
            card_rows(out@) == keep(rows.subrange(0, i as int), p),
        decreases table.len() - i,
    {
        let ghost before = card_rows(out@);
        proof {
            assert(rows.subrange(0, i + 1).drop_last() =~= rows.subrange(0, i as int));
            assert(rows.subrange(0, i + 1).last() == table@[i as int]@);
            assert(p(table@[i as int]@) == ((table@[i as int].deck_id == deck_id) == own));
        }
        if (table[i].deck_id == deck_id) == own {
            out.push(copy_card(&table[i]));
            assert(card_rows(out@) =~= before.push(table@[i as int]@));
        }
        i += 1;
    }
    assert(rows.subrange(0, i as int) =~= rows);
    out
}

/// Appends one card per draft to the table, for deck `deck_id`, the first
/// with identifier `first_id`.
fn append_cards(table: &mut Vec<Card>, first_id: i64, deck_id: i64, cards: &Vec<NewCard>)
    requires
        first_id + cards.len() <= i64::MAX,
    ensures
        card_rows(final(table)@) == card_rows(old(table)@) + fresh_cards(
            first_id as int,
            deck_id as int,
            drafts(cards@),
        ),
{
    let ghost before = card_rows(table@);
    let ghost fresh = fresh_cards(first_id as int, deck_id as int, drafts(cards@));
    let mut i: usize = 0;
    let mut id: i64 = first_id;
    assert(card_rows(table@) =~= before + fresh.subrange(0, 0));
    while i < cards.len()
        invariant
            i <= cards.len(),
            id == first_id + i,
            first_id + cards.len() <= i64::MAX,
            fresh == fresh_cards(first_id as int, deck_id as int, drafts(cards@)),
            card_rows(table@) == before + fresh.subrange(0, i as int),
        decreases cards.len() - i,
    {
        let ghost prev = card_rows(table@);
        let card = Card {
            id,
            deck_id,
            front: cards[i].front.clone(),
            back: cards[i].back.clone(),
        };
        assert(card@ == fresh[i as int]);
        table.push(card);
        assert(card_rows(table@) =~= prev.push(fresh[i as int]));
        assert(fresh.subrange(0, i + 1) =~= fresh.subrange(0, i as int).push(fresh[i as int]));
        assert(before + fresh.subrange(0, i + 1) =~= prev.push(fresh[i as int]));
        i += 1;
        id += 1;
    }
    assert(fresh.subrange(0, i as int) =~= fresh);
}

/// The category identifier to assign next, where the identifiers of the
/// table ascend and leave room for it.
fn next_category_id(table: &Vec<Category>) -> (r: Option<i64>)
    ensures
        match r {
            Some(next) => {
                &&& next == next_category_after(category_rows(table@))
                &&& 1 <= next
                &&& forall|i: int| 0 <= i < table.len() ==> (#[trigger] table[i]).id >= 1
                &&& forall|i: int, j: int|
                    0 <= i < j < table.len() ==> (#[trigger] table[i]).id < (#[trigger] table[j]).id
            },
            None => {
                ||| next_category_after(category_rows(table@)) > max_id()
                ||| table.len() > 0 && table[0].id < 1
                ||| exists|i: int, j: int|
                    0 <= i < j < table.len() && (#[trigger] table[i]).id >= (
                    #[trigger] table[j]).id
            },
        },
{
    let n = table.len();
    if n == 0 {
        return Some(1);
    }
    if table[0].id < 1 {
        return None;
    }
    let mut i: usize = 1;
    while i < n
        invariant
            1 <= i <= n,
            n == table.len(),
            table[0].id >= 1,
            forall|a: int, b: int|
                0 <= a < b < i ==> (#[trigger] table[a]).id < (#[trigger] table[b]).id,
        decreases n - i,
    {
        if table[i - 1].id >= table[i].id {
            return None;
        }
        i += 1;
    }
    let last = table[n - 1].id;
    if last == i64::MAX {
        return None;
    }
    assert forall|a: int| 0 <= a < table.len() implies (#[trigger] table[a]).id >= 1 by {
        if a > 0 {
            assert(table[0].id < table[a].id);
        }
    }
    Some(last + 1)
}

/// The deck identifier to assign next, where the identifiers of the table
/// ascend and leave room for it.
fn next_deck_id(table: &Vec<Deck>) -> (r: Option<i64>)
    ensures
        match r {
            Some(next) => {
                &&& next == next_deck_after(deck_rows(table@))
                &&& 1 <= next
                &&& forall|i: int| 0 <= i < table.len() ==> (#[trigger] table[i]).id >= 1
                &&& forall|i: int, j: int|
                    0 <= i < j < table.len() ==> (#[trigger] table[i]).id < (#[trigger] table[j]).id
            },
            None => {
                ||| next_deck_after(deck_rows(table@)) > max_id()
                ||| table.len() > 0 && table[0].id < 1
                ||| exists|i: int, j: int|
                    0 <= i < j < table.len() && (#[trigger] table[i]).id >= (
                    #[trigger] table[j]).id
            },
        },
{
    let n = table.len();
    if n == 0 {
        return Some(1);
    }
    if table[0].id < 1 {
        return None;
    }
    let mut i: usize = 1;
    while i < n
        invariant
            1 <= i <= n,
            n == table.len(),
            table[0].id >= 1,
            forall|a: int, b: int|
                0 <= a < b < i ==> (#[trigger] table[a]).id < (#[trigger] table[b]).id,
        decreases n - i,
    {
        if table[i - 1].id >= table[i].id {
            return None;
        }
        i += 1;
    }
    let last = table[n - 1].id;
    if last == i64::MAX {
        return None;
    }
    assert forall|a: int| 0 <= a < table.len() implies (#[trigger] table[a]).id >= 1 by {
        if a > 0 {
            assert(table[0].id < table[a].id);
        }
    }
    Some(last + 1)
}

/// The card identifier to assign next, where the identifiers of the table
/// ascend and leave room for it.
fn next_card_id(table: &Vec<Card>) -> (r: Option<i64>)
    ensures
        match r {
            Some(next) => {
                &&& next == next_card_after(card_rows(table@))
                &&& 1 <= next
                &&& forall|i: int| 0 <= i < table.len() ==> (#[trigger] table[i]).id >= 1
                &&& forall|i: int, j: int|
                    0 <= i < j < table.len() ==> (#[trigger] table[i]).id < (#[trigger] table[j]).id
            },
            None => {
                ||| next_card_after(card_rows(table@)) > max_id()
                ||| table.len() > 0 && table[0].id < 1
                ||| exists|i: int, j: int|
                    0 <= i < j < table.len() && (#[trigger] table[i]).id >= (
                    #[trigger] table[j]).id
            },
        },
{
    let n = table.len();
    if n == 0 {
        return Some(1);
    }
    if table[0].id < 1 {
        return None;
    }
    let mut i: usize = 1;
    while i < n
        invariant
            1 <= i <= n,
            n == table.len(),
            table[0].id >= 1,
            forall|a: int, b: int|
                0 <= a < b < i ==> (#[trigger] table[a]).id < (#[trigger] table[b]).id,
        decreases n - i,
    {
        if table[i - 1].id >= table[i].id {
            return None;
        }
        i += 1;
    }
    let last = table[n - 1].id;
    if last == i64::MAX {
        return None;
    }
    assert forall|a: int| 0 <= a < table.len() implies (#[trigger] table[a]).id >= 1 by {
        if a > 0 {
            assert(table[0].id < table[a].id);
        }
    }
    Some(last + 1)
}

/// The number of cards of deck `deck_id`.
fn count_cards(table: &Vec<Card>, deck_id: i64) -> (n: usize)
    ensures
        n == keep(card_rows(table@), of_deck(deck_id as int)).len(),
{
    let ghost rows = card_rows(table@);
    let mut n: usize = 0;
    let mut i: usize = 0;
    while i < table.len()
        invariant
            i <= table.len(),
            n <= i,
            rows == card_rows(table@),
            n == keep(rows.subrange(0, i as int), of_deck(deck_id as int)).len(),
        decreases table.len() - i,
    {
        proof {
            assert(rows.subrange(0, i + 1).drop_last() =~= rows.subrange(0, i as int));
            assert(rows.subrange(0, i + 1).last() == table@[i as int]@);
        }
        if table[i].deck_id == deck_id {
            n += 1;
        }
        i += 1;
    }
    assert(rows.subrange(0, i as int) =~= rows);
    n
}

impl Store {
    /// Whether the store is valid. Every store that the library hands out is.
    pub open spec fn wf(&self) -> bool {
        well_formed(self@)
    }

    /// An empty store.
    pub fn new() -> (s: Store)
        ensures
            s@ == empty_db(),
            s.wf(),
    {
        let s = Store {
            categories: Vec::new(),
            decks: Vec::new(),
            cards: Vec::new(),
            progress: Vec::new(),
            seeded: false,
            next_category_id: 1,
            next_deck_id: 1,
            next_card_id: 1,
        };
        assert(s@.categories =~= empty_db().categories);
        assert(s@.decks =~= empty_db().decks);
        assert(s@.cards =~= empty_db().cards);
        assert(s@.progress =~= empty_db().progress);
        s
    }

    /// The store that tables read from storage make up, the next identifiers
    /// being those after the last rows. Fails with `InvalidTables` exactly
    /// where the tables do not make up a valid database.
    pub fn load(
        categories: Vec<Category>,
        decks: Vec<Deck>,
        cards: Vec<Card>,
        progress: Vec<DeckProgress>,
        seeded: bool,
    ) -> (r: Result<Store, StoreError>)
        ensures
            match r {
                Ok(s) => s.wf() && s@ == loaded(
                    category_rows(categories@),
                    deck_rows(decks@),
                    card_rows(cards@),
                    progress_rows(progress@),
                    seeded,
                ),
                Err(e) => e == StoreError::InvalidTables && !well_formed(
                    loaded(
                        category_rows(categories@),
                        deck_rows(decks@),
                        card_rows(cards@),
                        progress_rows(progress@),
                        seeded,
                    ),
                ),
            },
    {
        let ghost db = loaded(
            category_rows(categories@),
            deck_rows(decks@),
            card_rows(cards@),
            progress_rows(progress@),
            seeded,
        );
        let next_category = match next_category_id(&categories) {
            Some(next) => next,
            None => {
                proof {
                    if db.next_category_id > max_id() {
                    } else if categories.len() > 0 && categories[0].id < 1 {
                        assert(db.categories[0].id < 1);
                    } else {
                        let (i, j) = choose|i: int, j: int|
                            0 <= i < j < categories.len() && (#[trigger] categories[i]).id >= (
                            #[trigger] categories[j]).id;
                        assert(db.categories[i].id >= db.categories[j].id);
                    }
                }
                return Err(StoreError::InvalidTables);
            },
        };
        let next_deck = match next_deck_id(&decks) {
            Some(next) => next,
            None => {
                proof {
                    if db.next_deck_id > max_id() {
                    } else if decks.len() > 0 && decks[0].id < 1 {
                        assert(db.decks[0].id < 1);
                    } else {
                        let (i, j) = choose|i: int, j: int|
                            0 <= i < j < decks.len() && (#[trigger] decks[i]).id >= (
                            #[trigger] decks[j]).id;
                        assert(db.decks[i].id >= db.decks[j].id);
                    }
                }
                return Err(StoreError::InvalidTables);
            },
        };
        let next_card = match next_card_id(&cards) {
            Some(next) => next,
            None => {
                proof {
                    if db.next_card_id > max_id() {
                    } else if cards.len() > 0 && cards[0].id < 1 {
                        assert(db.cards[0].id < 1);
                    } else {
                        let (i, j) = choose|i: int, j: int|
                            0 <= i < j < cards.len() && (#[trigger] cards[i]).id >= (
                            #[trigger] cards[j]).id;
                        assert(db.cards[i].id >= db.cards[j].id);
                    }
                }
                return Err(StoreError::InvalidTables);
            },
        };
        let mut i: usize = 0;
        while i < decks.len()
            invariant
                i <= decks.len(),
                db == loaded(
                    category_rows(categories@),
                    deck_rows(decks@),
                    card_rows(cards@),
                    progress_rows(progress@),
                    seeded,
                ),
                db.decks == deck_rows(decks@),
                db.cards == card_rows(cards@),
                db.next_category_id == next_category,
                forall|k: int|
                    0 <= k < i ==> {
                        &&& (#[trigger] db.decks[k]).category_id is Some
                            ==> db.decks[k].category_id->0 < db.next_category_id
                        &&& db.decks[k].card_count == keep(db.cards, of_deck(db.decks[k].id)).len()
                    },
            decreases decks.len() - i,
        {
            let ghost row = db.decks[i as int];
            assert(row == decks@[i as int]@);
            match decks[i].category_id {
                Some(c) => {
                    if c >= next_category {
                        assert(row.category_id is Some && row.category_id->0
                            >= db.next_category_id);
                        return Err(StoreError::InvalidTables);
                    }
                },
                None => {},
            }
            if decks[i].card_count as i128 != count_cards(&cards, decks[i].id) as i128 {
                return Err(StoreError::InvalidTables);
            }
            i += 1;
        }
        let mut j: usize = 0;
        while j < cards.len()
            invariant
                j <= cards.len(),
                db == loaded(
                    category_rows(categories@),
                    deck_rows(decks@),
                    card_rows(cards@),
                    progress_rows(progress@),
                    seeded,
                ),
                db.cards == card_rows(cards@),
                db.next_deck_id == next_deck,
                forall|k: int| 0 <= k < j ==> (#[trigger] db.cards[k]).deck_id < db.next_deck_id,
            decreases cards.len() - j,
        {
            let ghost row = db.cards[j as int];
            assert(row == cards@[j as int]@);
            if cards[j].deck_id >= next_deck {
                assert(row.deck_id >= db.next_deck_id);
                return Err(StoreError::InvalidTables);
            }
            j += 1;
        }
        let mut k: usize = 0;
        while k < progress.len()
            invariant
                k <= progress.len(),
                db == loaded(
                    category_rows(categories@),
                    deck_rows(decks@),
                    card_rows(cards@),
                    progress_rows(progress@),
                    seeded,
                ),
                db.progress == progress_rows(progress@),
                db.next_deck_id == next_deck,
                forall|a: int| 0 <= a < k ==> (#[trigger] db.progress[a]).deck_id < db.next_deck_id,
                forall|a: int, b: int|
                    0 <= a < b < k ==> (#[trigger] db.progress[a]).deck_id != (
                    #[trigger] db.progress[b]).deck_id,
            decreases progress.len() - k,
        {
            let ghost row = db.progress[k as int];
            assert(row == progress@[k as int]@);
            if progress[k].deck_id >= next_deck {
                assert(row.deck_id >= db.next_deck_id);
                return Err(StoreError::InvalidTables);
            }
            let mut m: usize = 0;
            while m < k
                invariant
                    m <= k,
                    k < progress.len(),
                db == loaded(
                    category_rows(categories@),
                    deck_rows(decks@),
                    card_rows(cards@),
                    progress_rows(progress@),
                    seeded,
                ),
                    db.progress == progress_rows(progress@),
                    forall|a: int|
                        0 <= a < m ==> (#[trigger] db.progress[a]).deck_id != db.progress[k as int].deck_id,
                decreases k - m,
            {
                let ghost earlier = db.progress[m as int];
                assert(earlier == progress@[m as int]@);
                if progress[m].deck_id == progress[k].deck_id {
                    assert(db.progress[k as int] == progress@[k as int]@);
                    assert(earlier.deck_id == db.progress[k as int].deck_id);
                    return Err(StoreError::InvalidTables);
                }
                m += 1;
            }
            k += 1;
        }
        let s = Store {
            categories,
            decks,
            cards,
            progress,
            seeded,
            next_category_id: next_category,
            next_deck_id: next_deck,
            next_card_id: next_card,
        };
        proof {
            assert(s@ =~= db);
            assert forall|a: int, b: int| 0 <= a < b < db.categories.len() implies (
            #[trigger] db.categories[a]).id < (#[trigger] db.categories[b]).id by {
                assert(s.categories[a].id < s.categories[b].id);
            }
            assert forall|a: int| 0 <= a < db.categories.len() implies 1 <= (
            #[trigger] db.categories[a]).id < db.next_category_id by {
                if a < db.categories.len() - 1 {
                    assert(s.categories[a].id < s.categories[db.categories.len() - 1].id);
                }
                assert(s.categories[a].id >= 1);
            }
            assert forall|a: int, b: int| 0 <= a < b < db.decks.len() implies (
            #[trigger] db.decks[a]).id < (#[trigger] db.decks[b]).id by {
                assert(s.decks[a].id < s.decks[b].id);
            }
            assert forall|a: int| 0 <= a < db.decks.len() implies 1 <= (
            #[trigger] db.decks[a]).id < db.next_deck_id by {
                if a < db.decks.len() - 1 {
                    assert(s.decks[a].id < s.decks[db.decks.len() - 1].id);
                }
                assert(s.decks[a].id >= 1);
            }
            assert forall|a: int, b: int| 0 <= a < b < db.cards.len() implies (
            #[trigger] db.cards[a]).id < (#[trigger] db.cards[b]).id by {
                assert(s.cards[a].id < s.cards[b].id);
            }
            assert forall|a: int| 0 <= a < db.cards.len() implies 1 <= (
            #[trigger] db.cards[a]).id < db.next_card_id by {
                if a < db.cards.len() - 1 {
                    assert(s.cards[a].id < s.cards[db.cards.len() - 1].id);
                }
                assert(s.cards[a].id >= 1);
            }
        }
        Ok(s)
    }

    /// A copy of the category table.
    pub fn categories(&self) -> (r: Vec<Category>)
        ensures
            category_rows(r@) == self@.categories,
    {
        let mut out: Vec<Category> = Vec::new();
        let mut i: usize = 0;
        while i < self.categories.len()
            invariant
                i <= self.categories.len(),
                out.len() == i,
                forall|k: int| 0 <= k < i ==> (#[trigger] out@[k])@ == self.categories@[k]@,
            decreases self.categories.len() - i,
        {
            out.push(copy_category(&self.categories[i]));
            i += 1;
        }
        assert(category_rows(out@) =~= self@.categories);
        out
    }

    /// A copy of the deck table.
    pub fn decks(&self) -> (r: Vec<Deck>)
        ensures
            deck_rows(r@) == self@.decks,
    {
        let mut out: Vec<Deck> = Vec::new();
        let mut i: usize = 0;
        while i < self.decks.len()
            invariant
                i <= self.decks.len(),
                out.len() == i,
                forall|k: int| 0 <= k < i ==> (#[trigger] out@[k])@ == self.decks@[k]@,
            decreases self.decks.len() - i,
        {
            out.push(copy_deck(&self.decks[i]));
            i += 1;
        }
        assert(deck_rows(out@) =~= self@.decks);
        out
    }

    /// A copy of the card table.
    pub fn cards(&self) -> (r: Vec<Card>)
        ensures
            card_rows(r@) == self@.cards,
    {
        let mut out: Vec<Card> = Vec::new();
        let mut i: usize = 0;
        while i < self.cards.len()
            invariant
                i <= self.cards.len(),
                out.len() == i,
                forall|k: int| 0 <= k < i ==> (#[trigger] out@[k])@ == self.cards@[k]@,
            decreases self.cards.len() - i,
        {
            out.push(copy_card(&self.cards[i]));
            i += 1;
        }
        assert(card_rows(out@) =~= self@.cards);
        out
    }

    /// A copy of the progress table.
    pub fn progress(&self) -> (r: Vec<DeckProgress>)
        ensures
            progress_rows(r@) == self@.progress,
    {
        let mut out: Vec<DeckProgress> = Vec::new();
        let mut i: usize = 0;
        while i < self.progress.len()
            invariant
                i <= self.progress.len(),
                out.len() == i,
                forall|k: int| 0 <= k < i ==> (#[trigger] out@[k])@ == self.progress@[k]@,
            decreases self.progress.len() - i,
        {
            out.push(self.progress[i]);
            i += 1;
        }
        assert(progress_rows(out@) =~= self@.progress);
        out
    }

    /// Resolves a category name to its identifier, creating the category at
    /// time `now` where no category has that name. Fails, and changes
    /// nothing, only where a category would have to be created and no
    /// identifier is left.
    pub fn resolve_or_create(&mut self, name: &str, now: i64) -> (r: Result<i64, StoreError>)
        requires
            old(self).wf(),
        ensures
            final(self).wf(),
            match r {
                Ok(id) => resolve_fits(old(self)@, name@) && id as int == resolved_id(
                    old(self)@,
                    name@,
                ) && final(self)@ == resolve(old(self)@, name@, now as int),
                Err(e) => !resolve_fits(old(self)@, name@) && e == StoreError::IdsExhausted
                    && final(self)@ == old(self)@,
            },
    {
        let owned = name.to_owned();
        match find_category(&self.categories, &owned) {
            Some(i) => Ok(self.categories[i].id),
            None => {
                if self.next_category_id == i64::MAX {
                    return Err(StoreError::IdsExhausted);
                }
                let id = self.next_category_id;
                let ghost rows = category_rows(self.categories@);
                let category = Category { id, name: owned, created_at: now, updated_at: now };
                self.categories.push(category);
                self.next_category_id = id + 1;
                proof {
                    assert(category_rows(self.categories@) =~= rows.push(category@));
                    assert(self@ =~= resolve(old(self)@, name@, now as int));
                    lemma_resolve_valid(old(self)@, name@, now as int);
                }
                Ok(id)
            },
        }
    }

    /// Creates a deck with the given cards, in the given order, in one step:
    /// the category is resolved, the deck row and one card row per card are
    /// inserted. On an error nothing is changed.
    pub fn create_deck(
        &mut self,
        title: &str,
        category: &str,
        cards: &Vec<NewCard>,
        card_count: i64,
        now: i64,
    ) -> (r: Result<(), StoreError>)
        requires
            old(self).wf(),
        ensures
            final(self).wf(),
            r == match create_error(
                old(self)@,
                category@,
                cards@.len() as int,
                card_count as int,
            ) {
                Some(e) => Err::<(), StoreError>(e),
                None => Ok(()),
            },
            final(self)@ == if r is Ok {
                create(old(self)@, title@, category@, drafts(cards@), now as int)
            } else {
                old(self)@
            },
    {
        let n = cards.len();
        if card_count as i128 != n as i128 {
            return Err(StoreError::CardCountMismatch);
        }
        if self.next_deck_id == i64::MAX || self.next_card_id as i128 + n as i128
            > i64::MAX as i128 {
            return Err(StoreError::IdsExhausted);
        }
        let category_id = match self.resolve_or_create(category, now) {
            Ok(id) => id,
            Err(e) => {
                return Err(e);
            },
        };
        let deck_id = self.next_deck_id;
        let ghost rows = deck_rows(self.decks@);
        let deck = Deck {
            id: deck_id,
            title: title.to_owned(),
            description: None,
            card_count,
            category_id: Some(category_id),
        };
        self.decks.push(deck);
        append_cards(&mut self.cards, self.next_card_id, deck_id, cards);
        self.next_deck_id = deck_id + 1;
        self.next_card_id = self.next_card_id + card_count;
        proof {
            assert(deck_rows(self.decks@) =~= rows.push(deck@));
            assert(drafts(cards@).len() == n);
            assert(self@ =~= create(old(self)@, title@, category@, drafts(cards@), now as int));
            lemma_create_valid(old(self)@, title@, category@, drafts(cards@), now as int);
        }
        Ok(())
    }

    /// Replaces the title, category and whole card set of deck `deck_id` in
    /// one step. Where no deck has that identifier the call succeeds and
    /// touches no deck and no card; the category is resolved all the same.
    /// On an error nothing is changed.
    pub fn update_deck(
        &mut self,
        deck_id: i64,
        title: &str,
        category: &str,
        cards: &Vec<NewCard>,
        card_count: i64,
        now: i64,
    ) -> (r: Result<(), StoreError>)
        requires
            old(self).wf(),
        ensures
            final(self).wf(),
            r == match update_error(
                old(self)@,
                deck_id as int,
                category@,
                cards@.len() as int,
                card_count as int,
            ) {
                Some(e) => Err::<(), StoreError>(e),
                None => Ok(()),
            },
            final(self)@ == if r is Ok {
                update(old(self)@, deck_id as int, title@, category@, drafts(cards@), now as int)
            } else {
                old(self)@
            },
    {
        let n = cards.len();
        if card_count as i128 != n as i128 {
            return Err(StoreError::CardCountMismatch);
        }
        let found = find_deck(&self.decks, deck_id);
        if found.is_some() && self.next_card_id as i128 + n as i128 > i64::MAX as i128 {
            return Err(StoreError::IdsExhausted);
        }
        let category_id = match self.resolve_or_create(category, now) {
            Ok(id) => id,
            Err(e) => {
                return Err(e);
            },
        };
        proof {
            assert(drafts(cards@).len() == n);
            lemma_update_valid(
                old(self)@,
                deck_id as int,
                title@,
                category@,
                drafts(cards@),
                now as int,
            );
        }
        match found {
            None => Ok(()),
            Some(i) => {
                let ghost rows = deck_rows(self.decks@);
                let previous = self.decks.remove(i);
                let deck = Deck {
                    id: previous.id,
                    title: title.to_owned(),
                    description: previous.description,
                    card_count,
                    category_id: Some(category_id),
                };
                self.decks.insert(i, deck);
                let kept = select_cards(&self.cards, deck_id, false);
                self.cards = kept;
                append_cards(&mut self.cards, self.next_card_id, deck_id, cards);
                self.next_card_id = self.next_card_id + card_count;
                proof {
                    assert(deck_rows(self.decks@) =~= rows.update(i as int, deck@));
                    assert(self@ =~= update(
                        old(self)@,
                        deck_id as int,
                        title@,
                        category@,
                        drafts(cards@),
                        now as int,
                    ));
                }
                Ok(())
            },
        }
    }

    /// The deck list: one summary per deck, the deck created last first.
    pub fn list_decks(&self) -> (r: Vec<DeckSummary>)
        ensures
            summary_rows(r@) == list(self@),
            r.len() == self@.decks.len(),
    {
        let n = self.decks.len();
        let mut out: Vec<DeckSummary> = Vec::new();
        let mut i: usize = 0;
        while i < n
            invariant
                i <= n,
                n == self.decks.len(),
                out.len() == i,
                forall|k: int|
                    0 <= k < i ==> (#[trigger] out@[k])@ == summary_of(
                        self@,
                        self@.decks[n - 1 - k],
                    ),
            decreases n - i,
        {
            let deck = &self.decks[n - 1 - i];
            let summary = DeckSummary {
                id: deck.id,
                title: deck.title.clone(),
                description: copy_text(&deck.description),
                category_name: lookup_category_name(&self.categories, deck.category_id),
                progress: lookup_progress(&self.progress, deck.id),
                card_count: deck.card_count,
            };
            assert(summary@ == summary_of(self@, self@.decks[n - 1 - i]));
            out.push(summary);
            i += 1;
        }
        assert(summary_rows(out@) =~= list(self@));
        out
    }

    /// The detail of deck `deck_id`: title, category name and the cards, by
    /// ascending identifier. Fails with `NotFound` exactly where no deck has
    /// that identifier.
    pub fn get_deck_detail(&self, deck_id: i64) -> (r: Result<DeckDetail, StoreError>)
        requires
            self.wf(),
        ensures
            match detail(self@, deck_id as int) {
                Some(d) => r is Ok && r->Ok_0@ == d,
                None => r == Err::<DeckDetail, StoreError>(StoreError::NotFound),
            },
            r is Ok ==> forall|i: int, j: int|
                0 <= i < j < r->Ok_0.cards.len() ==> (#[trigger] r->Ok_0.cards[i]).id < (
                #[trigger] r->Ok_0.cards[j]).id,
    {
        match find_deck(&self.decks, deck_id) {
            None => Err(StoreError::NotFound),
            Some(i) => {
                let deck = &self.decks[i];
                let cards = select_cards(&self.cards, deck_id, true);
                proof {
                    lemma_keep_cards_valid(
                        self@.cards,
                        of_deck(deck_id as int),
                        self@.next_card_id,
                        self@.next_deck_id,
                    );
                    let rows = card_rows(cards@);
                    assert forall|a: int, b: int| 0 <= a < b < cards.len() implies (
                    #[trigger] cards[a]).id < (#[trigger] cards[b]).id by {
                        assert(rows[a] == cards[a]@);
                        assert(rows[b] == cards[b]@);
                    }
                }
                Ok(
                    DeckDetail {
                        title: deck.title.clone(),
                        category_name: lookup_category_name(&self.categories, deck.category_id),
                        cards,
                    },
                )
            },
        }
    }

    /// The number of category rows.
    pub fn category_count(&self) -> (n: usize)
        ensures
            n == self@.categories.len(),
    {
        self.categories.len()
    }

    /// The number of deck rows.
    pub fn deck_count(&self) -> (n: usize)
        ensures
            n == self@.decks.len(),
    {
        self.decks.len()
    }

    /// The number of card rows, of all decks together.
    pub fn card_count(&self) -> (n: usize)
        ensures
            n == self@.cards.len(),
    {
        self.cards.len()
    }

    /// Whether the baseline data was inserted.
    pub fn is_seeded(&self) -> (b: bool)
        ensures
            b == self@.seeded,
    {
        self.seeded
    }
}

impl Store {
    /// Whether the store has identifiers left for the baseline data.
    fn seed_capacity(&self, names: &Vec<String>, decks: &Vec<SeedDeck>) -> (ok: bool)
        requires
            self.wf(),
        ensures
            ok == seed_fits(self@, texts(names@), seed_rows(decks@)),
    {
        let ghost rows = seed_rows(decks@);
        if self.next_category_id as i128 + names.len() as i128 > i64::MAX as i128 {
            return false;
        }
        if self.next_deck_id as i128 + decks.len() as i128 > i64::MAX as i128 {
            return false;
        }
        let mut total: i128 = 0;
        let mut i: usize = 0;
        while i < decks.len()
            invariant
                i <= decks.len(),
                rows == seed_rows(decks@),
                1 <= self.next_card_id,
                total == total_cards(rows.subrange(0, i as int)),
                0 <= total,
                self.next_card_id + total <= i64::MAX,
            decreases decks.len() - i,
        {
            proof {
                assert(rows.subrange(0, i + 1).drop_last() =~= rows.subrange(0, i as int));
                assert(rows.subrange(0, i + 1).last().cards.len() == decks@[i as int].cards.len());
                lemma_total_cards_prefix(rows, i + 1);
            }
            total = total + decks[i].cards.len() as i128;
            if self.next_card_id as i128 + total > i64::MAX as i128 {
                return false;
            }
            i += 1;
        }
        assert(rows.subrange(0, i as int) =~= rows);
        true
    }

    /// Inserts the given baseline data unless the store was seeded before:
    /// one category per name, then each deck with its cards and a progress of
    /// 0, its category looked up by name and absent on a miss, then the flag.
    /// A seeded store is left as it is. Where the identifiers do not suffice
    /// the call fails and changes nothing.
    pub fn seed_with(&mut self, names: &Vec<String>, decks: &Vec<SeedDeck>, now: i64) -> (r: Result<
        (),
        StoreError,
    >)
        requires
            old(self).wf(),
        ensures
            final(self).wf(),
            r == if old(self)@.seeded || seed_fits(old(self)@, texts(names@), seed_rows(decks@)) {
                Ok::<(), StoreError>(())
            } else {
                Err::<(), StoreError>(StoreError::IdsExhausted)
            },
            final(self)@ == if r is Ok {
                seed(old(self)@, texts(names@), seed_rows(decks@), now as int)
            } else {
                old(self)@
            },
    {
        if self.seeded {
            return Ok(());
        }
        if !self.seed_capacity(names, decks) {
            return Err(StoreError::IdsExhausted);
        }
        let ghost start = self@;
        let ghost all_names = texts(names@);
        let ghost all_decks = seed_rows(decks@);
        let mut i: usize = 0;
        assert(all_names.subrange(0, 0) =~= Seq::<Seq<char>>::empty());
        while i < names.len()
            invariant
                i <= names.len(),
                all_names == texts(names@),
                well_formed(start),
                start.next_category_id + names.len() <= i64::MAX,
                self@ == insert_categories(start, all_names.subrange(0, i as int), now as int),
            decreases names.len() - i,
        {
            let ghost before = self@;
            let ghost rows = category_rows(self.categories@);
            proof {
                lemma_insert_categories(start, all_names.subrange(0, i as int), now as int);
                assert(all_names.subrange(0, i + 1).drop_last() =~= all_names.subrange(
                    0,
                    i as int,
                ));
                assert(all_names.subrange(0, i + 1).last() == names@[i as int]@);
            }
            let id = self.next_category_id;
            let category = Category { id, name: names[i].clone(), created_at: now, updated_at: now };
            self.categories.push(category);
            self.next_category_id = id + 1;
            proof {
                assert(category_rows(self.categories@) =~= rows.push(category@));
                assert(self@ =~= insert_categories(
                    start,
                    all_names.subrange(0, i + 1),
                    now as int,
                ));
            }
            i += 1;
        }
        assert(all_names.subrange(0, i as int) =~= all_names);
        let ghost mid = self@;
        proof {
            lemma_insert_categories(start, all_names, now as int);
        }
        let mut j: usize = 0;
        assert(all_decks.subrange(0, 0) =~= Seq::<SeedRow>::empty());
        while j < decks.len()
            invariant
                j <= decks.len(),
                all_decks == seed_rows(decks@),
                well_formed(mid),
                mid.next_deck_id + decks.len() <= i64::MAX,
                mid.next_card_id + total_cards(all_decks) <= i64::MAX,
                self@ == seed_decks(mid, all_decks.subrange(0, j as int)),
            decreases decks.len() - j,
        {
            let ghost deck_table = deck_rows(self.decks@);
            let ghost progress_table = progress_rows(self.progress@);
            proof {
                lemma_total_cards_prefix(all_decks, j as int);
                lemma_total_cards_prefix(all_decks, j + 1);
                lemma_seed_decks(mid, all_decks.subrange(0, j as int));
                assert(all_decks.subrange(0, j + 1).drop_last() =~= all_decks.subrange(
                    0,
                    j as int,
                ));
                assert(all_decks.subrange(0, j + 1).last() == decks@[j as int]@);
                assert(decks@[j as int]@.cards.len() == decks@[j as int].cards.len());
            }
            let source = &decks[j];
            let category_id = match find_category(&self.categories, &source.category) {
                Some(k) => Some(self.categories[k].id),
                None => None,
            };
            let deck_id = self.next_deck_id;
            let count = source.cards.len() as i64;
            let deck = Deck {
                id: deck_id,
                title: source.title.clone(),
                description: None,
                card_count: count,
                category_id,
            };
            self.decks.push(deck);
            append_cards(&mut self.cards, self.next_card_id, deck_id, &source.cards);
            self.progress.push(DeckProgress { deck_id, progress: 0 });
            self.next_deck_id = deck_id + 1;
            self.next_card_id = self.next_card_id + count;
            proof {
                assert(deck_rows(self.decks@) =~= deck_table.push(deck@));
                assert(progress_rows(self.progress@) =~= progress_table.push(
                    ProgressRow { deck_id: deck_id as int, progress: 0 },
                ));
                assert(self@ =~= seed_decks(mid, all_decks.subrange(0, j + 1)));
            }
            j += 1;
        }
        assert(all_decks.subrange(0, j as int) =~= all_decks);
        proof {
            lemma_seed_decks(mid, all_decks);
        }
        self.seeded = true;
        assert(self@ =~= seed(start, all_names, all_decks, now as int));
        Ok(())
    }

    /// Seeds the store with the baseline data, once: a store that was seeded
    /// before is left as it is.
    pub fn seed(&mut self, now: i64) -> (r: Result<(), StoreError>)
        requires
            old(self).wf(),
        ensures
            final(self).wf(),
            r == if old(self)@.seeded || seed_fits(old(self)@, baseline_names(), baseline_rows()) {
                Ok::<(), StoreError>(())
            } else {
                Err::<(), StoreError>(StoreError::IdsExhausted)
            },
            final(self)@ == if r is Ok {
                seed(old(self)@, baseline_names(), baseline_rows(), now as int)
            } else {
                old(self)@
            },
    {
        let names = baseline_categories();
        let decks = baseline_decks();
        self.seed_with(&names, &decks, now)
    }
}

} // verus!
