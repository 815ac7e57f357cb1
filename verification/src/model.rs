//! The mathematical model of the deck store: tables as sequences of rows,
//! and the store operations as functions from one database value to the next.
use vstd::prelude::*;

verus! {

/// A category row. The name is the natural key, the identifier is a surrogate.
pub struct CategoryRow {
    pub id: int,
    pub name: Seq<char>,
    pub created_at: int,
    pub updated_at: int,
}

/// A deck row.
pub struct DeckRow {
    pub id: int,
    pub title: Seq<char>,
    pub description: Option<Seq<char>>,
    pub card_count: int,
    pub category_id: Option<int>,
}

/// A card row, owned by the deck that `deck_id` names.
pub struct CardRow {
    pub id: int,
    pub deck_id: int,
    pub front: Seq<char>,
    pub back: Seq<char>,
}

/// How many cards of a deck have been studied.
pub struct ProgressRow {
    pub deck_id: int,
    pub progress: int,
}

/// One line of the deck list.
pub struct SummaryRow {
    pub id: int,
    pub title: Seq<char>,
    pub description: Option<Seq<char>>,
    pub category_name: Option<Seq<char>>,
    pub progress: int,
    pub card_count: int,
}

/// A deck with its cards.
pub struct DetailRow {
    pub title: Seq<char>,
    pub category_name: Option<Seq<char>>,
    pub cards: Seq<CardRow>,
}

/// A baseline deck: title, category name and the front/back pairs of its cards.
pub struct SeedRow {
    pub title: Seq<char>,
    pub category: Seq<char>,
    pub cards: Seq<(Seq<char>, Seq<char>)>,
}

/// The whole database. Each table is in insertion order; `seeded` is the
/// persisted flag that guards the one-time seeding.
pub struct Db {
    pub categories: Seq<CategoryRow>,
    pub decks: Seq<DeckRow>,
    pub cards: Seq<CardRow>,
    pub progress: Seq<ProgressRow>,
    pub seeded: bool,
    pub next_category_id: int,
    pub next_deck_id: int,
    pub next_card_id: int,
}

/// The largest identifier the store can assign.
pub open spec fn max_id() -> int {
    i64::MAX as int
}

/// The empty database, whose first identifiers are 1.
pub open spec fn empty_db() -> Db {
    Db {
        categories: Seq::empty(),
        decks: Seq::empty(),
        cards: Seq::empty(),
        progress: Seq::empty(),
        seeded: false,
        next_category_id: 1,
        next_deck_id: 1,
        next_card_id: 1,
    }
}

/// Index of the first element of `s` that satisfies `p`.
pub open spec fn first_index<T>(s: Seq<T>, p: spec_fn(T) -> bool) -> Option<int>
    decreases s.len(),
{
    if s.len() == 0 {
        None
    } else {
        match first_index(s.drop_last(), p) {
            Some(i) => Some(i),
            None => if p(s.last()) {
                Some(s.len() - 1)
            } else {
                None
            },
        }
    }
}

/// The elements of `s` that satisfy `p`, in their order.
pub open spec fn keep<T>(s: Seq<T>, p: spec_fn(T) -> bool) -> Seq<T>
    decreases s.len(),
{
    if s.len() == 0 {
        Seq::empty()
    } else if p(s.last()) {
        keep(s.drop_last(), p).push(s.last())
    } else {
        keep(s.drop_last(), p)
    }
}

/// The categories named `name`.
pub open spec fn named(name: Seq<char>) -> spec_fn(CategoryRow) -> bool {
    |c: CategoryRow| c.name == name
}

/// The category with identifier `id`.
pub open spec fn category_with_id(id: int) -> spec_fn(CategoryRow) -> bool {
    |c: CategoryRow| c.id == id
}

/// The deck with identifier `id`.
pub open spec fn deck_with_id(id: int) -> spec_fn(DeckRow) -> bool {
    |d: DeckRow| d.id == id
}

/// The cards of deck `deck_id`.
pub open spec fn of_deck(deck_id: int) -> spec_fn(CardRow) -> bool {
    |c: CardRow| c.deck_id == deck_id
}

/// The cards of all decks but `deck_id`.
pub open spec fn not_of_deck(deck_id: int) -> spec_fn(CardRow) -> bool {
    |c: CardRow| c.deck_id != deck_id
}

/// The progress rows of deck `deck_id`.
pub open spec fn progress_for(deck_id: int) -> spec_fn(ProgressRow) -> bool {
    |p: ProgressRow| p.deck_id == deck_id
}

/// The validity of a database: identifiers start at 1, ascend in every table
/// and lie below the next one to assign; categories and decks are never
/// deleted, so their next identifier follows the last row; every card
/// belongs to a deck identifier and every deck to a category identifier that
/// was assigned; no deck has two progress rows; and each deck's `card_count`
/// is the number of its card rows.
pub open spec fn well_formed(db: Db) -> bool {
    &&& 1 <= db.next_category_id <= max_id()
    &&& 1 <= db.next_deck_id <= max_id()
    &&& 1 <= db.next_card_id <= max_id()
    &&& db.next_category_id == next_category_after(db.categories)
    &&& db.next_deck_id == next_deck_after(db.decks)
    &&& forall|i: int| 0 <= i < db.categories.len() ==> (#[trigger] db.categories[i]).id >= 1
    &&& forall|i: int| 0 <= i < db.decks.len() ==> (#[trigger] db.decks[i]).id >= 1
    &&& forall|i: int, j: int|
        0 <= i < j < db.categories.len() ==> (#[trigger] db.categories[i]).id < (
        #[trigger] db.categories[j]).id
    &&& forall|i: int|
        0 <= i < db.categories.len() ==> (#[trigger] db.categories[i]).id < db.next_category_id
    &&& forall|i: int, j: int|
        0 <= i < j < db.decks.len() ==> (#[trigger] db.decks[i]).id < (#[trigger] db.decks[j]).id
    &&& forall|i: int| 0 <= i < db.decks.len() ==> (#[trigger] db.decks[i]).id < db.next_deck_id
    &&& forall|i: int|
        0 <= i < db.decks.len() && (#[trigger] db.decks[i]).category_id is Some
            ==> db.decks[i].category_id->0 < db.next_category_id
    &&& forall|i: int|
        0 <= i < db.progress.len() ==> (#[trigger] db.progress[i]).deck_id < db.next_deck_id
    &&& forall|i: int, j: int|
        0 <= i < j < db.progress.len() ==> (#[trigger] db.progress[i]).deck_id != (
        #[trigger] db.progress[j]).deck_id
    &&& cards_valid(db.cards, db.next_card_id, db.next_deck_id)
    &&& forall|i: int|
        0 <= i < db.decks.len() ==> (#[trigger] db.decks[i]).card_count == keep(
            db.cards,
            of_deck(db.decks[i].id),
        ).len()
}

/// Card identifiers start at 1, ascend and lie below `next_card`; every
/// card's deck identifier lies below `next_deck`.
pub open spec fn cards_valid(cards: Seq<CardRow>, next_card: int, next_deck: int) -> bool {
    &&& forall|i: int, j: int|
        0 <= i < j < cards.len() ==> (#[trigger] cards[i]).id < (#[trigger] cards[j]).id
    &&& forall|i: int|
        0 <= i < cards.len() ==> 1 <= (#[trigger] cards[i]).id < next_card && cards[i].deck_id
            < next_deck
}

/// The card rows that an insertion of `drafts` for `deck_id` creates, the
/// first of them with identifier `first_id`.
pub open spec fn fresh_cards(first_id: int, deck_id: int, drafts: Seq<(Seq<char>, Seq<char>)>) -> Seq<
    CardRow,
> {
    Seq::new(
        drafts.len(),
        |i: int| CardRow { id: first_id + i, deck_id, front: drafts[i].0, back: drafts[i].1 },
    )
}

/// The identifier that resolving `name` yields: that of the first category of
/// that name, or the next one to assign where there is none.
pub open spec fn resolved_id(db: Db, name: Seq<char>) -> int {
    match first_index(db.categories, named(name)) {
        Some(i) => db.categories[i].id,
        None => db.next_category_id,
    }
}

/// Whether resolving `name` can be done: the name exists, or an identifier is left.
pub open spec fn resolve_fits(db: Db, name: Seq<char>) -> bool {
    first_index(db.categories, named(name)) is Some || db.next_category_id < max_id()
}

/// The database after resolving `name` at time `now`.
pub open spec fn resolve(db: Db, name: Seq<char>, now: int) -> Db {
    match first_index(db.categories, named(name)) {
        Some(_) => db,
        None => Db {
            categories: db.categories.push(
                CategoryRow { id: db.next_category_id, name, created_at: now, updated_at: now },
            ),
            next_category_id: db.next_category_id + 1,
            ..db
        },
    }
}

/// Whether a deck with `n` cards in category `category` can be created.
pub open spec fn create_fits(db: Db, category: Seq<char>, n: int) -> bool {
    &&& resolve_fits(db, category)
    &&& db.next_deck_id < max_id()
    &&& db.next_card_id + n <= max_id()
}

/// The database after creating a deck.
pub open spec fn create(
    db: Db,
    title: Seq<char>,
    category: Seq<char>,
    drafts: Seq<(Seq<char>, Seq<char>)>,
    now: int,
) -> Db {
    let r = resolve(db, category, now);
    Db {
        decks: r.decks.push(
            DeckRow {
                id: r.next_deck_id,
                title,
                description: None,
                card_count: drafts.len() as int,
                category_id: Some(resolved_id(db, category)),
            },
        ),
        cards: r.cards + fresh_cards(r.next_card_id, r.next_deck_id, drafts),
        next_deck_id: r.next_deck_id + 1,
        next_card_id: r.next_card_id + drafts.len(),
        ..r
    }
}

/// Whether the update of deck `deck_id` with `n` cards can be done.
pub open spec fn update_fits(db: Db, deck_id: int, category: Seq<char>, n: int) -> bool {
    &&& resolve_fits(db, category)
    &&& first_index(db.decks, deck_with_id(deck_id)) is Some ==> db.next_card_id + n <= max_id()
}

/// The database after updating deck `deck_id`: its title, card count and
/// category are replaced, its cards are deleted and the supplied ones
/// inserted. Where no deck has that identifier only the category is resolved.
pub open spec fn update(
    db: Db,
    deck_id: int,
    title: Seq<char>,
    category: Seq<char>,
    drafts: Seq<(Seq<char>, Seq<char>)>,
    now: int,
) -> Db {
    let r = resolve(db, category, now);
    match first_index(r.decks, deck_with_id(deck_id)) {
        None => r,
        Some(i) => Db {
            decks: r.decks.update(
                i,
                DeckRow {
                    title,
                    card_count: drafts.len() as int,
                    category_id: Some(resolved_id(db, category)),
                    ..r.decks[i]
                },
            ),
            cards: keep(r.cards, not_of_deck(deck_id)) + fresh_cards(
                r.next_card_id,
                deck_id,
                drafts,
            ),
            next_card_id: r.next_card_id + drafts.len(),
            ..r
        },
    }
}

/// The name of the category that a deck refers to, if the deck refers to one
/// and that category exists.
pub open spec fn category_name_of(categories: Seq<CategoryRow>, category_id: Option<int>) -> Option<
    Seq<char>,
> {
    match category_id {
        None => None,
        Some(id) => match first_index(categories, category_with_id(id)) {
            Some(i) => Some(categories[i].name),
            None => None,
        },
    }
}

/// The progress recorded for a deck, 0 where none is recorded.
pub open spec fn progress_of(progress: Seq<ProgressRow>, deck_id: int) -> int {
    match first_index(progress, progress_for(deck_id)) {
        Some(i) => progress[i].progress,
        None => 0,
    }
}

/// The summary of one deck.
pub open spec fn summary_of(db: Db, d: DeckRow) -> SummaryRow {
    SummaryRow {
        id: d.id,
        title: d.title,
        description: d.description,
        category_name: category_name_of(db.categories, d.category_id),
        progress: progress_of(db.progress, d.id),
        card_count: d.card_count,
    }
}

/// The deck list: one summary per deck, the deck created last coming first.
pub open spec fn list(db: Db) -> Seq<SummaryRow> {
    Seq::new(db.decks.len(), |i: int| summary_of(db, db.decks[db.decks.len() - 1 - i]))
}

/// The detail of deck `deck_id`, if there is such a deck: its cards in
/// insertion order.
pub open spec fn detail(db: Db, deck_id: int) -> Option<DetailRow> {
    match first_index(db.decks, deck_with_id(deck_id)) {
        None => None,
        Some(i) => Some(
            DetailRow {
                title: db.decks[i].title,
                category_name: category_name_of(db.categories, db.decks[i].category_id),
                cards: keep(db.cards, of_deck(deck_id)),
            },
        ),
    }
}

/// Whether no two categories have the same name.
pub open spec fn names_distinct(categories: Seq<CategoryRow>) -> bool {
    forall|i: int, j: int|
        0 <= i < j < categories.len() ==> (#[trigger] categories[i]).name != (
        #[trigger] categories[j]).name
}

/// The category identifier to assign next to tables read from storage: one
/// more than the last, 1 for an empty table.
pub open spec fn next_category_after(categories: Seq<CategoryRow>) -> int {
    if categories.len() == 0 {
        1
    } else {
        categories.last().id + 1
    }
}

/// The deck identifier to assign next to tables read from storage.
pub open spec fn next_deck_after(decks: Seq<DeckRow>) -> int {
    if decks.len() == 0 {
        1
    } else {
        decks.last().id + 1
    }
}

/// The card identifier to assign next to tables read from storage.
pub open spec fn next_card_after(cards: Seq<CardRow>) -> int {
    if cards.len() == 0 {
        1
    } else {
        cards.last().id + 1
    }
}

/// The database that tables read from storage make up.
pub open spec fn loaded(
    categories: Seq<CategoryRow>,
    decks: Seq<DeckRow>,
    cards: Seq<CardRow>,
    progress: Seq<ProgressRow>,
    seeded: bool,
) -> Db {
    Db {
        categories,
        decks,
        cards,
        progress,
        seeded,
        next_category_id: next_category_after(categories),
        next_deck_id: next_deck_after(decks),
        next_card_id: next_card_after(cards),
    }
}

/// The number of cards in all the baseline decks together.
pub open spec fn total_cards(decks: Seq<SeedRow>) -> int
    decreases decks.len(),
{
    if decks.len() == 0 {
        0
    } else {
        total_cards(decks.drop_last()) + decks.last().cards.len()
    }
}

/// The database after one category row per name was inserted, in order.
pub open spec fn insert_categories(db: Db, names: Seq<Seq<char>>, now: int) -> Db
    decreases names.len(),
{
    if names.len() == 0 {
        db
    } else {
        let r = insert_categories(db, names.drop_last(), now);
        Db {
            categories: r.categories.push(
                CategoryRow {
                    id: r.next_category_id,
                    name: names.last(),
                    created_at: now,
                    updated_at: now,
                },
            ),
            next_category_id: r.next_category_id + 1,
            ..r
        }
    }
}

/// The database after one baseline deck was inserted: the deck row, whose
/// category is looked up by name and absent on a miss, its cards, and a
/// progress row of 0.
pub open spec fn seed_deck(db: Db, d: SeedRow) -> Db {
    Db {
        decks: db.decks.push(
            DeckRow {
                id: db.next_deck_id,
                title: d.title,
                description: None,
                card_count: d.cards.len() as int,
                category_id: match first_index(db.categories, named(d.category)) {
                    Some(i) => Some(db.categories[i].id),
                    None => None,
                },
            },
        ),
        cards: db.cards + fresh_cards(db.next_card_id, db.next_deck_id, d.cards),
        progress: db.progress.push(ProgressRow { deck_id: db.next_deck_id, progress: 0 }),
        next_deck_id: db.next_deck_id + 1,
        next_card_id: db.next_card_id + d.cards.len(),
        ..db
    }
}

/// The database after the baseline decks were inserted, in order.
pub open spec fn seed_decks(db: Db, decks: Seq<SeedRow>) -> Db
    decreases decks.len(),
{
    if decks.len() == 0 {
        db
    } else {
        seed_deck(seed_decks(db, decks.drop_last()), decks.last())
    }
}

/// Whether the baseline data can be inserted.
pub open spec fn seed_fits(db: Db, names: Seq<Seq<char>>, decks: Seq<SeedRow>) -> bool {
    &&& db.next_category_id + names.len() <= max_id()
    &&& db.next_deck_id + decks.len() <= max_id()
    &&& db.next_card_id + total_cards(decks) <= max_id()
}

/// The database after seeding: unchanged where the flag is set, else the
/// baseline categories, then the baseline decks, then the flag.
pub open spec fn seed(db: Db, names: Seq<Seq<char>>, decks: Seq<SeedRow>, now: int) -> Db {
    if db.seeded {
        db
    } else {
        Db { seeded: true, ..seed_decks(insert_categories(db, names, now), decks) }
    }
}

} // verus!
