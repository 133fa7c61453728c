//! Lints and fixes the SQL inside `sqlx::query*!` macros in Rust source, with sqruff.
//!
//! The way of a query: [`extract`] finds the macros of a file ([`syntax`] reads them
//! with `syn`) and the byte range of their SQL literal; [`literal`] takes the literal
//! apart and dedents the SQL; [`sqruff_adapter`] hands it to the linter, which takes its
//! settings from a text only where [`config`] knows them, and SQL only where [`grammar`]
//! finds no words that its parser panics behind; [`engine`] maps what the linter says back
//! to the file, or writes fixed SQL into a literal with the framing of the old one and
//! splices the literals into the file. [`diagnostic`] renders findings, and [`report`] says
//! what the command line prints.
//!
//! Text is modelled as a sequence of characters ([`text`]). What `syn` makes of a file is
//! a named function of its text, and what sqruff may answer is a named relation, for its
//! rules walk hash maps whose order is not fixed; everything else is stated exactly.
//!
//! Properties that span several functions have modules of their own. What the operations
//! are for: [`extraction`] on which queries are found, [`substance`] and [`blocks`] on what
//! the linter gets of a literal and a fix writes into it, [`checking`] on what is reported,
//! [`fixing`] on what is written, [`counting`] on runs over several files, [`wording`] on
//! what is said, and [`acceptance`] on which texts are taken; [`operations`] tells the same
//! of the results of calls. Further, [`roundtrip`] is on SQL that is read, written and read
//! again, [`location`] on where a finding is reported, and [`splicing`] on what a fix
//! changes in a file. [`layout`] holds what they need to know of lines and indents.
pub mod acceptance;
pub mod blocks;
pub mod checking;
pub mod config;
pub mod counting;
pub mod diagnostic;
pub mod engine;
pub mod extract;
pub mod extraction;
pub mod fixing;
pub mod grammar;
pub mod layout;
pub mod literal;
pub mod location;
pub mod operations;
pub mod report;
pub mod roundtrip;
pub mod splicing;
pub mod sqruff_adapter;
pub mod substance;
pub mod syntax;
pub mod text;
pub mod wording;
