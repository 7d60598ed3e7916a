//! Fuzzy file-name search engine: a match accumulator fed by a parallel
//! directory walk, a debounced live renderer over the current top matches,
//! and a browsing mode over the frozen result set.
//!
//! The filesystem traversal, terminal output and interactive prompts live in
//! the surrounding application; this crate holds the verified core: match
//! testing and formatting, the append-only accumulator, top-K selection, the
//! renderer's redraw decision, and the post-search filter.

pub mod accumulator;
pub mod format;
pub mod matcher;
pub mod ordering;
pub mod record;
pub mod searcher;
pub mod top_matches;

pub use accumulator::MatchAccumulator;
pub use matcher::Matcher;
pub use record::MatchRecord;
pub use searcher::{RenderAction, Searcher};
pub use top_matches::get_top_matches;
