//! Semantic comparison of structured documents: a value tree, its
//! equality, a diff engine with two ways of aligning arrays, and a filter
//! that selects changes by the pattern of their path.

pub mod diff;
pub mod error;
pub mod filter;
pub mod format;
pub mod git;
pub mod inspect;
pub mod laws;
pub mod lcs;
pub mod number;
pub mod output;
pub mod terminal;
pub mod text;
pub mod tree;

pub use diff::{compute_diff, ArrayDiffStrategy, Change, ChangeType, Diff, DiffConfig, DiffStats};
pub use error::{OutputError, ParseError, SdiffError};
pub use format::FormatHint;
pub use filter::{filter_diff, FilterConfig, PathPattern, PatternSegment};
pub use tree::{Node, NodeMap};
