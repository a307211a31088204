//! Tunable scoring constants for the affine-gap matcher, and their derived
//! defaults.
use vstd::prelude::*;

verus! {

/// Scoring configuration of [`crate::SkimMatcherV2`].
///
/// A match contributes `score_match` plus a positional bonus; a gap of `k`
/// skipped choice characters costs `gap_start + k * gap_extension`.
#[derive(Copy, Clone, Debug)]
pub struct SkimScoreConfig {
    /// Score for one matched character.
    pub score_match: i32,
    /// Cost of opening a gap (negative).
    pub gap_start: i32,
    /// Cost of extending a gap by one character (negative).
    pub gap_extension: i32,
    /// The positional bonus of the first choice character is multiplied by
    /// this factor: the first typed character usually carries the most
    /// significance.
    pub bonus_first_char_multiplier: i32,
    /// Bonus for a match at the head of a word.
    pub bonus_head: i32,
    /// Bonus for a match after a soft separator; a slightly weaker word
    /// breakage than a head.
    pub bonus_break: i32,
    /// Bonus for a match at a camel-case transition.
    pub bonus_camel: i32,
    /// Bonus for each character in a consecutive run of matches.
    pub bonus_consecutive: i32,
    /// Penalty (negative) for a case mismatch under case-insensitive
    /// matching.
    pub penalty_case_mismatch: i32,
}

/// The default configuration: `score_match = 16`, `gap_start = -3`,
/// `gap_extension = -1`, and the bonuses derived from those.
pub open spec fn default_score_config() -> SkimScoreConfig {
    SkimScoreConfig {
        score_match: 16,
        gap_start: -3i32,
        gap_extension: -1i32,
        bonus_first_char_multiplier: 2,
        bonus_head: 8,
        bonus_break: 7,
        bonus_camel: 6,
        bonus_consecutive: 4,
        penalty_case_mismatch: -2i32,
    }
}

impl Default for SkimScoreConfig {
    fn default() -> (r: Self)
        ensures
            r == default_score_config(),
    {
        let score_match: i32 = 16;
        let gap_start: i32 = -3;
        let gap_extension: i32 = -1;
        let bonus_first_char_multiplier: i32 = 2;
        SkimScoreConfig {
            score_match,
            gap_start,
            gap_extension,
            bonus_first_char_multiplier,
            bonus_head: score_match / 2,
            bonus_break: score_match / 2 + gap_extension,
            bonus_camel: score_match / 2 + 2 * gap_extension,
            bonus_consecutive: -(gap_start + gap_extension),
            penalty_case_mismatch: gap_extension * 2,
        }
    }
}

} // verus!
