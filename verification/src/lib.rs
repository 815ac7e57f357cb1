//! A store of flashcard decks: categories, decks, their cards and progress,
//! with atomic create and update, list and detail projections, and a
//! one-time seeding of baseline data.
pub mod baseline;
pub mod laws;
pub mod lemmas;
pub mod model;
pub mod store;
pub mod types;
