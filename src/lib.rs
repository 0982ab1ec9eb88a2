//! Hierarchical difficulty statistics over shared text.
//!
//! Words get a difficulty from their frequency rank in a training corpus;
//! texts are segmented into paragraphs and sentences as views of one shared
//! buffer; each segment carries statistics folded up from its parts.
pub mod dict;
pub mod hanzi_db;
pub mod ratio;
pub mod text_block;
pub mod text_view;
pub mod texts;
pub mod user_level;
pub mod word_db;
pub mod word_list;
