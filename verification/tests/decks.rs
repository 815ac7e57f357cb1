use deck_engine::baseline::{baseline_categories, baseline_decks, draft};
use deck_engine::store::Store;
use deck_engine::types::{Category, DeckProgress, NewCard, SeedDeck, StoreError};

fn faces(cards: &[(&str, &str)]) -> Vec<NewCard> {
    cards.iter().map(|(f, b)| NewCard { front: f.to_string(), back: b.to_string() }).collect()
}

fn basics() -> Store {
    let mut store = Store::new();
    let cards = faces(&[("a", "1"), ("b", "2")]);
    assert_eq!(store.create_deck("Basics", "Lang", &cards, 2, 100), Ok(()));
    store
}

#[test]
fn new_store_is_empty() {
    let store = Store::new();
    assert!(store.list_decks().is_empty());
    assert_eq!(store.category_count(), 0);
    assert_eq!(store.card_count(), 0);
    assert!(!store.is_seeded());
}

#[test]
fn create_then_list_and_detail() {
    let store = basics();
    let list = store.list_decks();
    assert_eq!(list.len(), 1);
    assert_eq!(list[0].id, 1);
    assert_eq!(list[0].title, "Basics");
    assert_eq!(list[0].card_count, 2);
    assert_eq!(list[0].category_name.as_deref(), Some("Lang"));
    assert_eq!(list[0].description, None);
    assert_eq!(list[0].progress, 0);
    let detail = store.get_deck_detail(list[0].id).unwrap();
    assert_eq!(detail.title, "Basics");
    assert_eq!(detail.category_name.as_deref(), Some("Lang"));
    assert_eq!(detail.cards.len(), 2);
    assert_eq!((detail.cards[0].front.as_str(), detail.cards[0].back.as_str()), ("a", "1"));
    assert_eq!((detail.cards[1].front.as_str(), detail.cards[1].back.as_str()), ("b", "2"));
    assert_eq!((detail.cards[0].id, detail.cards[1].id), (1, 2));
    assert_eq!((detail.cards[0].deck_id, detail.cards[1].deck_id), (1, 1));
}

#[test]
fn update_replaces_the_card_set() {
    let mut store = basics();
    let id = store.list_decks()[0].id;
    let cards = faces(&[("c", "3")]);
    assert_eq!(store.update_deck(id, "Basics v2", "Lang", &cards, 1, 200), Ok(()));
    let detail = store.get_deck_detail(id).unwrap();
    assert_eq!(detail.title, "Basics v2");
    assert_eq!(detail.cards.len(), 1);
    assert_eq!((detail.cards[0].front.as_str(), detail.cards[0].back.as_str()), ("c", "3"));
    assert_eq!(detail.cards[0].id, 3);
    assert_eq!(store.card_count(), 1);
    let list = store.list_decks();
    assert_eq!(list.len(), 1);
    assert_eq!(list[0].card_count, 1);
    assert_eq!(list[0].title, "Basics v2");
    assert_eq!(store.category_count(), 1);
}

#[test]
fn update_leaves_other_decks_alone() {
    let mut store = basics();
    assert_eq!(store.create_deck("Other", "Math", &faces(&[("x", "y")]), 1, 101), Ok(()));
    assert_eq!(store.update_deck(1, "Basics", "Math", &faces(&[]), 0, 102), Ok(()));
    assert!(store.get_deck_detail(1).unwrap().cards.is_empty());
    assert_eq!(store.get_deck_detail(1).unwrap().category_name.as_deref(), Some("Math"));
    let other = store.get_deck_detail(2).unwrap();
    assert_eq!(other.cards.len(), 1);
    assert_eq!(other.cards[0].front, "x");
    assert_eq!(store.card_count(), 1);
}

#[test]
fn update_of_unknown_deck_succeeds_and_touches_no_deck() {
    let mut store = basics();
    assert_eq!(store.update_deck(77, "Ghost", "Fresh", &faces(&[("q", "r")]), 1, 300), Ok(()));
    assert_eq!(store.deck_count(), 1);
    assert_eq!(store.card_count(), 2);
    assert_eq!(store.category_count(), 2);
    assert_eq!(store.get_deck_detail(77).unwrap_err(), StoreError::NotFound);
    assert_eq!(store.list_decks()[0].title, "Basics");
}

#[test]
fn same_category_name_is_one_category() {
    let mut store = basics();
    assert_eq!(store.create_deck("More", "Lang", &faces(&[]), 0, 150), Ok(()));
    assert_eq!(store.category_count(), 1);
    let list = store.list_decks();
    assert_eq!(list.len(), 2);
    assert_eq!(list[0].category_name, list[1].category_name);
    assert_eq!(store.resolve_or_create("Lang", 160), Ok(1));
    assert_eq!(store.resolve_or_create("Lang", 170), Ok(1));
    assert_eq!(store.resolve_or_create("Other", 180), Ok(2));
    assert_eq!(store.resolve_or_create("Other", 190), Ok(2));
    assert_eq!(store.category_count(), 2);
}

#[test]
fn empty_category_name_is_a_category() {
    let mut store = Store::new();
    assert_eq!(store.create_deck("Loose", "", &faces(&[("a", "b")]), 1, 5), Ok(()));
    assert_eq!(store.list_decks()[0].category_name.as_deref(), Some(""));
    assert_eq!(store.category_count(), 1);
}

#[test]
fn list_is_most_recent_first() {
    let mut store = Store::new();
    for (k, title) in ["one", "two", "three"].iter().enumerate() {
        assert_eq!(store.create_deck(title, "c", &faces(&[]), 0, k as i64), Ok(()));
    }
    let titles: Vec<String> = store.list_decks().into_iter().map(|s| s.title).collect();
    assert_eq!(titles, vec!["three", "two", "one"]);
    let ids: Vec<i64> = store.list_decks().into_iter().map(|s| s.id).collect();
    assert_eq!(ids, vec![3, 2, 1]);
}

#[test]
fn card_count_must_match() {
    let mut store = basics();
    let cards = faces(&[("a", "1")]);
    assert_eq!(store.create_deck("Bad", "New", &cards, 2, 1), Err(StoreError::CardCountMismatch));
    assert_eq!(store.create_deck("Bad", "New", &cards, -1, 1), Err(StoreError::CardCountMismatch));
    assert_eq!(store.update_deck(1, "Bad", "New", &cards, 0, 1), Err(StoreError::CardCountMismatch));
    assert_eq!(store.deck_count(), 1);
    assert_eq!(store.card_count(), 2);
    assert_eq!(store.category_count(), 1);
    assert_eq!(store.list_decks()[0].title, "Basics");
}

#[test]
fn detail_of_unknown_deck_is_not_found() {
    let store = basics();
    assert_eq!(store.get_deck_detail(2).unwrap_err(), StoreError::NotFound);
    assert_eq!(store.get_deck_detail(0).unwrap_err(), StoreError::NotFound);
    assert_eq!(store.get_deck_detail(-1).unwrap_err(), StoreError::NotFound);
    assert_eq!(Store::new().get_deck_detail(1).unwrap_err(), StoreError::NotFound);
}

#[test]
fn seeding_runs_once() {
    let mut store = Store::new();
    assert_eq!(store.seed(10), Ok(()));
    assert!(store.is_seeded());
    let first = store.list_decks();
    assert_eq!(first.len(), 2);
    assert_eq!(store.category_count(), 3);
    assert_eq!(store.card_count(), 5);
    assert_eq!(store.seed(20), Ok(()));
    assert_eq!(store.list_decks().len(), 2);
    assert_eq!(store.category_count(), 3);
    assert_eq!(store.card_count(), 5);
}

#[test]
fn seeded_decks_have_category_count_and_progress() {
    let mut store = Store::new();
    assert_eq!(store.seed(10), Ok(()));
    let list = store.list_decks();
    assert_eq!(list[0].title, "Capitals");
    assert_eq!(list[0].category_name.as_deref(), Some("Geography"));
    assert_eq!(list[0].card_count, 2);
    assert_eq!(list[0].progress, 0);
    assert_eq!(list[1].title, "Spanish basics");
    assert_eq!(list[1].category_name.as_deref(), Some("Languages"));
    assert_eq!(list[1].card_count, 3);
    let detail = store.get_deck_detail(list[1].id).unwrap();
    let fronts: Vec<&str> = detail.cards.iter().map(|c| c.front.as_str()).collect();
    assert_eq!(fronts, vec!["hola", "gracias", "adios"]);
    assert_eq!(store.resolve_or_create("", 11), Ok(1));
}

#[test]
fn baseline_holds_the_empty_category() {
    let names = baseline_categories();
    assert_eq!(names, vec!["", "Languages", "Geography"]);
    let decks = baseline_decks();
    assert_eq!(decks.len(), 2);
    assert_eq!(decks[1].cards[1].back, "Tokyo");
    let card = draft("f", "b");
    assert_eq!((card.front.as_str(), card.back.as_str()), ("f", "b"));
}

#[test]
fn seed_deck_with_unknown_category_has_none() {
    let mut store = Store::new();
    let decks = vec![SeedDeck {
        title: "Stray".to_string(),
        category: "Missing".to_string(),
        cards: faces(&[("a", "b")]),
    }];
    assert_eq!(store.seed_with(&vec!["Present".to_string()], &decks, 1), Ok(()));
    let list = store.list_decks();
    assert_eq!(list.len(), 1);
    assert_eq!(list[0].category_name, None);
    assert_eq!(list[0].card_count, 1);
    assert_eq!(store.get_deck_detail(1).unwrap().category_name, None);
    assert_eq!(store.category_count(), 1);
}

#[test]
fn seeding_after_decks_were_created_adds_to_them() {
    let mut store = basics();
    assert_eq!(store.seed(10), Ok(()));
    assert_eq!(store.deck_count(), 3);
    assert_eq!(store.card_count(), 7);
    let ids: Vec<i64> = store.list_decks().into_iter().map(|s| s.id).collect();
    assert_eq!(ids, vec![3, 2, 1]);
    let capitals = store.get_deck_detail(3).unwrap();
    assert_eq!(capitals.cards[0].id, 6);
}

#[test]
fn error_messages() {
    assert_eq!(StoreError::NotFound.message(), "no deck has this identifier");
    assert_eq!(
        StoreError::CardCountMismatch.message(),
        "the card count differs from the number of cards"
    );
    assert_eq!(StoreError::IdsExhausted.message(), "no identifier is left for a new row");
    assert_eq!(StoreError::InvalidTables.message(), "the stored tables are inconsistent");
}

#[test]
fn load_takes_what_the_store_gave() {
    let mut store = basics();
    assert_eq!(store.seed(10), Ok(()));
    let loaded = Store::load(
        store.categories(),
        store.decks(),
        store.cards(),
        store.progress(),
        store.is_seeded(),
    )
    .unwrap();
    assert!(loaded.is_seeded());
    assert_eq!(loaded.deck_count(), 3);
    assert_eq!(loaded.card_count(), 7);
    let mut loaded = loaded;
    assert_eq!(loaded.create_deck("Next", "Languages", &faces(&[("p", "q")]), 1, 20), Ok(()));
    let top = &loaded.list_decks()[0];
    assert_eq!((top.id, top.title.as_str()), (4, "Next"));
    assert_eq!(loaded.get_deck_detail(4).unwrap().cards[0].id, 8);
    assert_eq!(loaded.category_count(), 4);
}

#[test]
fn load_refuses_inconsistent_tables() {
    let store = basics();
    let mut decks = store.decks();
    decks[0].card_count = 3;
    let r = Store::load(store.categories(), decks, store.cards(), store.progress(), false);
    assert_eq!(r.err(), Some(StoreError::InvalidTables));
    let mut cards = store.cards();
    cards.swap(0, 1);
    let r = Store::load(store.categories(), store.decks(), cards, store.progress(), false);
    assert_eq!(r.err(), Some(StoreError::InvalidTables));
    let mut cards = store.cards();
    cards[1].deck_id = 2;
    let r = Store::load(store.categories(), store.decks(), cards, store.progress(), false);
    assert_eq!(r.err(), Some(StoreError::InvalidTables));
    let mut decks = store.decks();
    decks[0].category_id = Some(9);
    let r = Store::load(store.categories(), decks, store.cards(), store.progress(), false);
    assert_eq!(r.err(), Some(StoreError::InvalidTables));
    let empty = Store::load(Vec::new(), Vec::new(), Vec::new(), Vec::new(), false).unwrap();
    assert_eq!(empty.deck_count(), 0);
}

#[test]
fn load_refuses_two_progress_rows_for_one_deck() {
    let mut store = Store::new();
    assert_eq!(store.seed(1), Ok(()));
    let mut progress = store.progress();
    assert_eq!(progress.len(), 2);
    progress[1].deck_id = progress[0].deck_id;
    let r = Store::load(store.categories(), store.decks(), store.cards(), progress, true);
    assert_eq!(r.err(), Some(StoreError::InvalidTables));
    let mut progress = store.progress();
    progress[1].deck_id = 3;
    let r = Store::load(store.categories(), store.decks(), store.cards(), progress, true);
    assert_eq!(r.err(), Some(StoreError::InvalidTables));
}

#[test]
fn progress_of_a_deck_is_listed() {
    let store = basics();
    let progress = vec![DeckProgress { deck_id: 1, progress: 2 }];
    let loaded =
        Store::load(store.categories(), store.decks(), store.cards(), progress, false).unwrap();
    assert_eq!(loaded.list_decks()[0].progress, 2);
}

#[test]
fn exhausted_identifiers_fail_and_change_nothing() {
    let last = Category { id: i64::MAX - 1, name: "last".to_string(), created_at: 0, updated_at: 0 };
    let mut store =
        Store::load(vec![last.clone()], Vec::new(), Vec::new(), Vec::new(), false).unwrap();
    assert_eq!(store.resolve_or_create("new", 1), Err(StoreError::IdsExhausted));
    assert_eq!(store.create_deck("t", "new", &faces(&[]), 0, 1), Err(StoreError::IdsExhausted));
    assert_eq!(store.update_deck(1, "t", "new", &faces(&[]), 0, 1), Err(StoreError::IdsExhausted));
    assert_eq!(store.seed(1), Err(StoreError::IdsExhausted));
    assert_eq!(store.category_count(), 1);
    assert_eq!(store.deck_count(), 0);
    assert!(!store.is_seeded());
    assert_eq!(store.resolve_or_create("last", 1), Ok(i64::MAX - 1));
    assert_eq!(store.create_deck("t", "last", &faces(&[("a", "b")]), 1, 1), Ok(()));
    assert_eq!(store.list_decks()[0].category_name.as_deref(), Some("last"));
    let full = Category { id: i64::MAX, ..last };
    let r = Store::load(vec![full], Vec::new(), Vec::new(), Vec::new(), false);
    assert_eq!(r.err(), Some(StoreError::InvalidTables));
}

#[test]
fn load_refuses_identifiers_below_one() {
    let zero = Category { id: 0, name: "zero".to_string(), created_at: 0, updated_at: 0 };
    let r = Store::load(vec![zero], Vec::new(), Vec::new(), Vec::new(), false);
    assert_eq!(r.err(), Some(StoreError::InvalidTables));
    let mut store = basics();
    assert_eq!(store.update_deck(1, "Basics", "Lang", &faces(&[]), 0, 1), Ok(()));
    let back = Store::load(store.categories(), store.decks(), store.cards(), store.progress(), false);
    let mut back = back.unwrap();
    assert_eq!(back.update_deck(1, "Basics", "Lang", &faces(&[("n", "m")]), 1, 2), Ok(()));
    assert_eq!(back.get_deck_detail(1).unwrap().cards[0].id, 1);
}
