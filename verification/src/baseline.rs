//! The baseline data that a fresh store is seeded with.
use crate::model::SeedRow;
use crate::types::{drafts, seed_rows, texts, NewCard, SeedDeck};
use vstd::prelude::*;

verus! {

/// The names of the baseline categories. The empty name is the category of
/// decks that were given none.
pub open spec fn baseline_names() -> Seq<Seq<char>> {
    seq![""@, "Languages"@, "Geography"@]
}

/// The baseline decks.
pub open spec fn baseline_rows() -> Seq<SeedRow> {
    seq![
        SeedRow {
            title: "Spanish basics"@,
            category: "Languages"@,
            cards: seq![("hola"@, "hello"@), ("gracias"@, "thank you"@), ("adios"@, "goodbye"@)],
        },
        SeedRow {
            title: "Capitals"@,
            category: "Geography"@,
            cards: seq![("France"@, "Paris"@), ("Japan"@, "Tokyo"@)],
        },
    ]
}

/// A card with the given faces.
pub fn draft(front: &str, back: &str) -> (c: NewCard)
    ensures
        c@ == (front@, back@),
{
    NewCard { front: front.to_owned(), back: back.to_owned() }
}

/// The baseline categories, as the seeding takes them.
pub fn baseline_categories() -> (v: Vec<String>)
    ensures
        texts(v@) == baseline_names(),
{
    let mut v: Vec<String> = Vec::new();
    v.push("".to_owned());
    v.push("Languages".to_owned());
    v.push("Geography".to_owned());
    assert(texts(v@) =~= baseline_names());
    v
}

/// The baseline decks, as the seeding takes them.
pub fn baseline_decks() -> (v: Vec<SeedDeck>)
    ensures
        seed_rows(v@) == baseline_rows(),
{
    let mut spanish: Vec<NewCard> = Vec::new();
    spanish.push(draft("hola", "hello"));
    spanish.push(draft("gracias", "thank you"));
    spanish.push(draft("adios", "goodbye"));
    assert(drafts(spanish@) =~= baseline_rows()[0].cards);
    let mut capitals: Vec<NewCard> = Vec::new();
    capitals.push(draft("France", "Paris"));
    capitals.push(draft("Japan", "Tokyo"));
    assert(drafts(capitals@) =~= baseline_rows()[1].cards);
    let mut v: Vec<SeedDeck> = Vec::new();
    v.push(
        SeedDeck {
            title: "Spanish basics".to_owned(),
            category: "Languages".to_owned(),
            cards: spanish,
        },
    );
    v.push(
        SeedDeck { title: "Capitals".to_owned(), category: "Geography".to_owned(), cards: capitals },
    );
    assert(seed_rows(v@) =~= baseline_rows());
    v
}

} // verus!
