//! A line-oriented editor core for numbered program listings.
//!
//! The crate keeps an ordered buffer of numbered source lines, interprets
//! each raw input line as either a numbered insertion or a control command
//! (renumber, save, print), and classifies text into lexical tokens for
//! display. File and terminal I/O are left to the caller.

pub mod chars;

pub mod token;

pub mod buffer;

pub mod engine;

pub mod shell;
