//! Fuzzy project finder: a relevance-scored text index over repository
//! names, a pure terminal-prompt state machine, and the session logic
//! that ties them together.
//!
//! The index keeps records as a sorted, newline-delimited,
//! deduplicated text buffer; the matcher scores candidates by
//! substring containment with positional weighting; the prompt turns
//! key events into text-editing and navigation transitions; the
//! session decides, per event, whether to re-rank, redraw, or finish.

pub mod config;
pub mod db;
pub mod fuzzy;
pub mod git_cmd;
pub mod git_url;
pub mod session;
pub mod text;
pub mod tui;
