//! Locating informal scripture references in free text and normalising each
//! into structured citations: a book-name resolver, a tokenizer for the
//! chapter/verse address and a state machine over its tokens.

pub mod text;
pub mod roman_numerals;
pub mod book_linking;
pub mod address;
pub mod scriptureregex;
