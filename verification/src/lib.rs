//! A console markdown viewer: markdown is parsed into events, the events are
//! laid out into styled display lines that fit a given width, and the lines
//! are composed into ANSI-escaped screen output.

pub mod text;
pub mod render;
pub mod layout;
pub mod table;
pub mod cmark;
pub mod parse;
pub mod search;
pub mod viewer;
pub mod screen;
pub mod cli;
