//! A reader for plain-text time logs: dated day records holding tagged
//! time intervals, with a weekly total relative to a reference moment.

pub mod ast;
pub mod calendar;
pub mod parser;
pub mod processing;
pub mod settings;
