//! Character classification and case-aware character equality shared by
//! both matchers, together with the linear subsequence prefilter.
use vstd::prelude::*;

verus! {

/// The type of a single character, as seen by the bonus classifier.
///
/// `Empty` stands for the sentinel (`'\0'`) before the first character of a
/// string; `HardSep` for space and bracket-like separators; `SoftSep` for any
/// other ASCII punctuation; `Number` for ASCII digits; `Upper`/`Lower` for
/// ASCII letter case. Non-ASCII characters classify as `Lower`.
#[derive(Debug, PartialEq, Eq, Structural, Copy, Clone)]
pub enum CharType {
    Empty,
    Upper,
    Lower,
    Number,
    HardSep,
    SoftSep,
}

/// The role of a matched position, derived from the types of the previous
/// and the current character.
#[derive(Debug, PartialEq, Eq, Structural, Copy, Clone)]
pub enum CharRole {
    Head,
    Tail,
    Camel,
    Break,
}

pub open spec fn is_hard_sep(c: char) -> bool {
    c == ' ' || c == '/' || c == '\\' || c == '|' || c == '(' || c == ')' || c == '[' || c == ']'
        || c == '{' || c == '}'
}

pub open spec fn is_ascii_punct(c: char) -> bool {
    (33 <= c as u32 && c as u32 <= 47) || (58 <= c as u32 && c as u32 <= 64) || (91 <= c as u32
        && c as u32 <= 96) || (123 <= c as u32 && c as u32 <= 126)
}

pub open spec fn is_ascii_digit_char(c: char) -> bool {
    48 <= c as u32 && c as u32 <= 57
}

pub open spec fn is_ascii_upper(c: char) -> bool {
    65 <= c as u32 && c as u32 <= 90
}

/// What `CharType::of` assigns to each character.
pub open spec fn char_type_of(c: char) -> CharType {
    if c == '\0' {
        CharType::Empty
    } else if is_hard_sep(c) {
        CharType::HardSep
    } else if is_ascii_punct(c) {
        CharType::SoftSep
    } else if is_ascii_digit_char(c) {
        CharType::Number
    } else if is_ascii_upper(c) {
        CharType::Upper
    } else {
        CharType::Lower
    }
}

/// What `CharRole::of_type` assigns to each pair of character types.
pub open spec fn char_role_of_types(prev: CharType, cur: CharType) -> CharRole {
    match (prev, cur) {
        (CharType::Empty, _) => CharRole::Head,
        (CharType::HardSep, _) => CharRole::Head,
        (CharType::SoftSep, _) => CharRole::Break,
        (CharType::Lower, CharType::Upper) => CharRole::Camel,
        (CharType::Number, CharType::Upper) => CharRole::Camel,
        _ => CharRole::Tail,
    }
}

/// The code point of `c` with an ASCII upper-case letter folded to lower.
pub open spec fn fold_code(c: char) -> int {
    if is_ascii_upper(c) {
        c as u32 + 32
    } else {
        c as u32 as int
    }
}

/// Equality of two characters after ASCII case folding.
pub open spec fn fold_eq(a: char, b: char) -> bool {
    fold_code(a) == fold_code(b)
}

/// Character equality under the active case rule: strict code-point equality
/// when `case_sensitive`, ASCII-folded equality otherwise.
pub open spec fn char_eq(a: char, b: char, case_sensitive: bool) -> bool {
    if case_sensitive {
        a == b
    } else {
        fold_eq(a, b)
    }
}

/// Whether `ps` embeds in order into `cs` under the case rule, with each
/// pattern character consumed by the first eligible choice character at or
/// after `ci` (the greedy scan). Greedy consumption finds an embedding
/// whenever one exists, so this also characterizes plain matchability.
pub open spec fn subseq_match_from(
    cs: Seq<char>,
    ps: Seq<char>,
    case_sensitive: bool,
    ci: int,
    pi: int,
) -> bool
    decreases cs.len() - ci when 0 <= ci <= cs.len() && 0 <= pi <= ps.len()
{
    if pi >= ps.len() {
        true
    } else if ci >= cs.len() {
        false
    } else if char_eq(cs[ci], ps[pi], case_sensitive) {
        subseq_match_from(cs, ps, case_sensitive, ci + 1, pi + 1)
    } else {
        subseq_match_from(cs, ps, case_sensitive, ci + 1, pi)
    }
}

/// What `cheap_matches` returns: the greedy in-order embedding test.
pub open spec fn cheap_matches_spec(cs: Seq<char>, ps: Seq<char>, case_sensitive: bool) -> bool {
    subseq_match_from(cs, ps, case_sensitive, 0, 0)
}

/// Whether some character of `ps` is an ASCII upper-case letter.
pub open spec fn contains_upper_spec(ps: Seq<char>) -> bool {
    exists|i: int| 0 <= i < ps.len() && is_ascii_upper(ps[i])
}

impl CharType {
    /// Classify one character.
    pub fn of(ch: char) -> (t: CharType)
        ensures
            t == char_type_of(ch),
    {
        if ch == '\0' {
            CharType::Empty
        } else if ch == ' ' || ch == '/' || ch == '\\' || ch == '|' || ch == '(' || ch == ')'
            || ch == '[' || ch == ']' || ch == '{' || ch == '}' {
            CharType::HardSep
        } else {
            let u = ch as u32;
            if (33 <= u && u <= 47) || (58 <= u && u <= 64) || (91 <= u && u <= 96) || (123 <= u
                && u <= 126) {
                CharType::SoftSep
            } else if 48 <= u && u <= 57 {
                CharType::Number
            } else if 65 <= u && u <= 90 {
                CharType::Upper
            } else {
                CharType::Lower
            }
        }
    }
}

impl CharRole {
    /// The role of `cur` when it follows `prev`.
    pub fn of(prev: char, cur: char) -> (r: CharRole)
        ensures
            r == char_role_of_types(char_type_of(prev), char_type_of(cur)),
    {
        CharRole::of_type(CharType::of(prev), CharType::of(cur))
    }

    /// The role determined by the two character types alone.
    pub fn of_type(prev: CharType, cur: CharType) -> (r: CharRole)
        ensures
            r == char_role_of_types(prev, cur),
    {
        match (prev, cur) {
            (CharType::Empty, _) => CharRole::Head,
            (CharType::HardSep, _) => CharRole::Head,
            (CharType::SoftSep, _) => CharRole::Break,
            (CharType::Lower, CharType::Upper) => CharRole::Camel,
            (CharType::Number, CharType::Upper) => CharRole::Camel,
            _ => CharRole::Tail,
        }
    }
}

/// Case-folded code point of one character.
pub(crate) fn fold_char_code(c: char) -> (r: u32)
    ensures
        r == fold_code(c),
{
    let u = c as u32;
    if 65 <= u && u <= 90 {
        u + 32
    } else {
        u
    }
}

/// Compare two characters under the active case rule.
pub(crate) fn char_equal(a: char, b: char, case_sensitive: bool) -> (r: bool)
    ensures
        r == char_eq(a, b, case_sensitive),
{
    if case_sensitive {
        a == b
    } else {
        fold_char_code(a) == fold_char_code(b)
    }
}

/// The characters of `s`, in order.
pub(crate) fn chars_of(s: &str) -> (r: Vec<char>)
    ensures
        r@ == s@,
{
    let n = s.unicode_len();
    let mut r: Vec<char> = Vec::new();
    let mut i: usize = 0;
    while i < n
        invariant
            n == s@.len(),
            0 <= i <= n,
            r@ == s@.subrange(0, i as int),
        decreases n - i,
    {
        r.push(s.get_char(i));
        i = i + 1;
        proof {
            assert(r@ =~= s@.subrange(0, i as int));
        }
    }
    proof {
        assert(r@ =~= s@);
    }
    r
}

/// Whether `ps` contains an ASCII upper-case letter.
pub(crate) fn contains_upper(ps: &Vec<char>) -> (r: bool)
    ensures
        r == contains_upper_spec(ps@),
{
    let mut i: usize = 0;
    while i < ps.len()
        invariant
            0 <= i <= ps@.len(),
            forall|k: int| 0 <= k < i ==> !is_ascii_upper(ps@[k]),
        decreases ps@.len() - i,
    {
        let u = ps[i] as u32;
        if 65 <= u && u <= 90 {
            return true;
        }
        i = i + 1;
    }
    false
}

/// Greedy in-order embedding test on character vectors.
pub(crate) fn cheap_matches_chars(cs: &Vec<char>, ps: &Vec<char>, case_sensitive: bool) -> (r:
    bool)
    ensures
        r == cheap_matches_spec(cs@, ps@, case_sensitive),
{
    let mut ci: usize = 0;
    let mut pi: usize = 0;
    while ci < cs.len() && pi < ps.len()
        invariant
            0 <= ci <= cs@.len(),
            0 <= pi <= ps@.len(),
            cheap_matches_spec(cs@, ps@, case_sensitive) == subseq_match_from(
                cs@,
                ps@,
                case_sensitive,
                ci as int,
                pi as int,
            ),
        decreases cs@.len() - ci,
    {
        if char_equal(cs[ci], ps[pi], case_sensitive) {
            pi = pi + 1;
        }
        ci = ci + 1;
    }
    pi == ps.len()
}

/// Linear prefilter: true iff the pattern is an in-order subsequence of the
/// choice under the active case rule.
pub fn cheap_matches(choice: &str, pattern: &str, case_sensitive: bool) -> (r: bool)
    ensures
        r == cheap_matches_spec(choice@, pattern@, case_sensitive),
{
    let cs = chars_of(choice);
    let ps = chars_of(pattern);
    cheap_matches_chars(&cs, &ps, case_sensitive)
}

} // verus!
