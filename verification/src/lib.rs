//! Breadth-first search over the link graph of Wikipedia articles.
//!
//! The library holds the search state (`graph`), the rules that decide which
//! pages are followed and how they are read from the API's JSON answer
//! (`wiki_nav`, `json`), the small decisions of the console menu
//! (`console_helper`) and the joining of the two halves of a bidirectional
//! search (`bfs`). Fetching pages, the terminal and the clock live in the
//! application that drives it.

pub mod text;
pub mod json;
pub mod wiki_nav;
pub mod graph;
pub mod console_helper;
pub mod bfs;
