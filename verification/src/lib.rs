//! Header and footer padding for the chapters of a book.
//!
//! A configuration is two ordered lists of rules. Each rule pairs a regular
//! expression with a literal text. A chapter whose path contains a match of
//! a rule's expression gets that rule's text put before its body (header
//! rules) or after it (footer rules), every matching rule taking part, in
//! the order of the configuration.

pub mod book;
pub mod lemmas;
pub mod pattern;
pub mod rules;

pub use book::{
    all_chapter_records, Book, BookItem, Chapter, ChapterPath, ChapterRecord, Outcome, RecordView,
};
pub use rules::{
    compose, default_regex_str, CompileError, Config, Matcher, RawConfig, RawMatcher,
};
