//! A fuzzy string matcher: decides whether every character of a pattern
//! occurs, in order but not necessarily contiguously, inside a choice
//! string, and scores the quality of the best such match.
//!
//! Two matchers are provided: [`SkimMatcher`] (a sparse dynamic program
//! with contextual bonuses) and [`SkimMatcherV2`] (a Gotoh-style affine-gap
//! alignment with optional traceback and a per-thread scratch cache).
use vstd::prelude::*;

mod cache;
mod chars;
mod score;
mod v1;
mod v2;

pub use chars::CharRole;
pub use chars::CharType;
pub use chars::cheap_matches;
pub use score::SkimScoreConfig;
pub use v1::SkimMatcher;
pub use v1::fuzzy_indices;
pub use v1::fuzzy_match;
pub use v2::MatrixCell;
pub use v2::Movement;
pub use v2::ScoreMatrix;
pub use v2::SkimMatcherV2;

verus! {

/// Integer ranking returned by the matchers; higher is better.
pub type ScoreType = i64;

/// Character (not byte) index into the choice string.
pub type IndexType = usize;

} // verus!
