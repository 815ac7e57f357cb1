//! The values that the store takes and hands out, each with its view in the model.
use crate::model::{CardRow, CategoryRow, DeckRow, DetailRow, ProgressRow, SeedRow, SummaryRow};
use vstd::prelude::*;

verus! {

/// Why a store operation failed.
#[derive(Debug, Clone, Copy, PartialEq, Eq, Structural)]
pub enum StoreError {
    /// No deck has the requested identifier.
    NotFound,
    /// The stated card count is not the number of cards supplied.
    CardCountMismatch,
    /// A table has no identifier left for a new row.
    IdsExhausted,
    /// Tables read from storage do not make up a valid database.
    InvalidTables,
}

impl StoreError {
    /// The message shown to the caller of a command.
    pub fn message(&self) -> (m: String)
        ensures
            m@ == match *self {
                StoreError::NotFound => "no deck has this identifier"@,
                StoreError::CardCountMismatch => "the card count differs from the number of cards"@,
                StoreError::IdsExhausted => "no identifier is left for a new row"@,
                StoreError::InvalidTables => "the stored tables are inconsistent"@,
            },
    {
        match self {
            StoreError::NotFound => "no deck has this identifier".to_owned(),
            StoreError::CardCountMismatch => {
                "the card count differs from the number of cards".to_owned()
            },
            StoreError::IdsExhausted => "no identifier is left for a new row".to_owned(),
            StoreError::InvalidTables => "the stored tables are inconsistent".to_owned(),
        }
    }
}

/// A card as a caller supplies it: the two faces, no identifier yet.
#[derive(Debug, Clone)]
pub struct NewCard {
    pub front: String,
    pub back: String,
}

impl View for NewCard {
    type V = (Seq<char>, Seq<char>);

    open spec fn view(&self) -> (Seq<char>, Seq<char>) {
        (self.front@, self.back@)
    }
}

/// A stored card.
#[derive(Debug, Clone)]
pub struct Card {
    pub id: i64,
    pub deck_id: i64,
    pub front: String,
    pub back: String,
}

impl View for Card {
    type V = CardRow;

    open spec fn view(&self) -> CardRow {
        CardRow {
            id: self.id as int,
            deck_id: self.deck_id as int,
            front: self.front@,
            back: self.back@,
        }
    }
}

/// A stored category.
#[derive(Debug, Clone)]
pub struct Category {
    pub id: i64,
    pub name: String,
    pub created_at: i64,
    pub updated_at: i64,
}

impl View for Category {
    type V = CategoryRow;

    open spec fn view(&self) -> CategoryRow {
        CategoryRow {
            id: self.id as int,
            name: self.name@,
            created_at: self.created_at as int,
            updated_at: self.updated_at as int,
        }
    }
}

/// A stored deck.
#[derive(Debug, Clone)]
pub struct Deck {
    pub id: i64,
    pub title: String,
    pub description: Option<String>,
    pub card_count: i64,
    pub category_id: Option<i64>,
}

impl View for Deck {
    type V = DeckRow;

    open spec fn view(&self) -> DeckRow {
        DeckRow {
            id: self.id as int,
            title: self.title@,
            description: opt_text(self.description),
            card_count: self.card_count as int,
            category_id: opt_id(self.category_id),
        }
    }
}

/// The progress stored for a deck.
#[derive(Debug, Clone, Copy)]
pub struct DeckProgress {
    pub deck_id: i64,
    pub progress: i64,
}

impl View for DeckProgress {
    type V = ProgressRow;

    open spec fn view(&self) -> ProgressRow {
        ProgressRow { deck_id: self.deck_id as int, progress: self.progress as int }
    }
}

/// One line of the deck list.
#[derive(Debug, Clone)]
pub struct DeckSummary {
    pub id: i64,
    pub title: String,
    pub description: Option<String>,
    pub category_name: Option<String>,
    pub progress: i64,
    pub card_count: i64,
}

impl View for DeckSummary {
    type V = SummaryRow;

    open spec fn view(&self) -> SummaryRow {
        SummaryRow {
            id: self.id as int,
            title: self.title@,
            description: opt_text(self.description),
            category_name: opt_text(self.category_name),
            progress: self.progress as int,
            card_count: self.card_count as int,
        }
    }
}

/// A deck with its cards.
#[derive(Debug, Clone)]
pub struct DeckDetail {
    pub title: String,
    pub category_name: Option<String>,
    pub cards: Vec<Card>,
}

impl View for DeckDetail {
    type V = DetailRow;

    open spec fn view(&self) -> DetailRow {
        DetailRow {
            title: self.title@,
            category_name: opt_text(self.category_name),
            cards: card_rows(self.cards@),
        }
    }
}

/// A baseline deck for the seeding.
#[derive(Debug, Clone)]
pub struct SeedDeck {
    pub title: String,
    pub category: String,
    pub cards: Vec<NewCard>,
}

impl View for SeedDeck {
    type V = SeedRow;

    open spec fn view(&self) -> SeedRow {
        SeedRow { title: self.title@, category: self.category@, cards: drafts(self.cards@) }
    }
}

/// The view of an optional text.
pub open spec fn opt_text(o: Option<String>) -> Option<Seq<char>> {
    match o {
        Some(s) => Some(s@),
        None => None,
    }
}

/// The view of an optional identifier.
pub open spec fn opt_id(o: Option<i64>) -> Option<int> {
    match o {
        Some(id) => Some(id as int),
        None => None,
    }
}

/// The rows that a table of cards stands for.
pub open spec fn card_rows(v: Seq<Card>) -> Seq<CardRow> {
    Seq::new(v.len(), |i: int| v[i]@)
}

/// The rows that a table of categories stands for.
pub open spec fn category_rows(v: Seq<Category>) -> Seq<CategoryRow> {
    Seq::new(v.len(), |i: int| v[i]@)
}

/// The rows that a table of decks stands for.
pub open spec fn deck_rows(v: Seq<Deck>) -> Seq<DeckRow> {
    Seq::new(v.len(), |i: int| v[i]@)
}

/// The rows that a table of progress entries stands for.
pub open spec fn progress_rows(v: Seq<DeckProgress>) -> Seq<ProgressRow> {
    Seq::new(v.len(), |i: int| v[i]@)
}

/// The rows that a deck list stands for.
pub open spec fn summary_rows(v: Seq<DeckSummary>) -> Seq<SummaryRow> {
    Seq::new(v.len(), |i: int| v[i]@)
}

/// The front/back pairs of the cards that a caller supplies.
pub open spec fn drafts(v: Seq<NewCard>) -> Seq<(Seq<char>, Seq<char>)> {
    Seq::new(v.len(), |i: int| v[i]@)
}

/// The rows that a list of baseline decks stands for.
pub open spec fn seed_rows(v: Seq<SeedDeck>) -> Seq<SeedRow> {
    Seq::new(v.len(), |i: int| v[i]@)
}

/// The views of a list of texts.
pub open spec fn texts(v: Seq<String>) -> Seq<Seq<char>> {
    Seq::new(v.len(), |i: int| v[i]@)
}

/// A copy of a card.
pub fn copy_card(c: &Card) -> (r: Card)
    ensures
        r@ == c@,
{
    Card { id: c.id, deck_id: c.deck_id, front: c.front.clone(), back: c.back.clone() }
}

/// A copy of a category.
pub fn copy_category(c: &Category) -> (r: Category)
    ensures
        r@ == c@,
{
    Category { id: c.id, name: c.name.clone(), created_at: c.created_at, updated_at: c.updated_at }
}

/// A copy of a deck.
pub fn copy_deck(d: &Deck) -> (r: Deck)
    ensures
        r@ == d@,
{
    Deck {
        id: d.id,
        title: d.title.clone(),
        description: copy_text(&d.description),
        card_count: d.card_count,
        category_id: d.category_id,
    }
}

/// A copy of an optional text.
pub fn copy_text(o: &Option<String>) -> (r: Option<String>)
    ensures
        opt_text(r) == opt_text(*o),
{
    match o {
        Some(s) => Some(s.clone()),
        None => None,
    }
}

} // verus!
