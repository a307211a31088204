//! The affine-gap sequence-alignment matcher.
//!
//! Two score matrices are maintained over pattern prefix `i` and choice
//! prefix `j`: `M[i][j]`, the best alignment ending in a match of the two
//! last characters, and `P[i][j]`, the best alignment in which the last
//! choice character is skipped. The recurrences are
//!
//! ```text
//! M[i][j] = match(i, j) + max(M[i-1][j-1] + bonus_consecutive, P[i-1][j-1])
//! M[i][j] = -infinity if p[i-1] and c[j-1] do not match
//! P[i][j] = max(gap_start + gap_extension + M[i][j-1], gap_extension + P[i][j-1])
//! ```
//!
//! with cell values kept in signed 32-bit range (saturating at its ends).
use vstd::prelude::*;

use crate::IndexType;
use crate::ScoreType;
use crate::chars::CharType;
use crate::chars::char_eq;
use crate::chars::char_equal;
use crate::chars::char_role_of_types;
use crate::chars::char_type_of;
use crate::chars::CharRole;
use crate::score::SkimScoreConfig;

verus! {

/// Sentinel marking an impossible alignment state.
pub const MATRIX_CELL_NEG_INFINITY: i32 = -32768;

/// How a cell's best score was reached: by matching the current choice
/// character or by skipping it.
#[derive(Debug, PartialEq, Eq, Structural, Copy, Clone)]
pub enum Movement {
    Match,
    Skip,
}

/// One cell of a score matrix.
#[derive(Debug, Copy, Clone)]
pub struct MatrixCell {
    pub movement: Movement,
    pub score: i32,
}

impl MatrixCell {
    /// The initial cell: an impossible state reached by skipping.
    pub fn empty() -> (r: MatrixCell)
        ensures
            r.score == MATRIX_CELL_NEG_INFINITY,
            r.movement == Movement::Skip,
    {
        MatrixCell { movement: Movement::Skip, score: MATRIX_CELL_NEG_INFINITY }
    }
}

/// A `rows x cols` matrix stored as one flat buffer of cells, addressed as
/// `row * cols + col`.
pub struct ScoreMatrix {
    cells: Vec<MatrixCell>,
    rows: usize,
    cols: usize,
}

impl ScoreMatrix {
    pub closed spec fn spec_rows(&self) -> int {
        self.rows as int
    }

    pub closed spec fn spec_cols(&self) -> int {
        self.cols as int
    }

    pub closed spec fn wf(&self) -> bool {
        self.cells@.len() == self.spec_rows() * self.spec_cols()
    }

    /// The cell at `(r, c)`.
    pub closed spec fn cell(&self, r: int, c: int) -> MatrixCell {
        self.cells@[r * self.spec_cols() + c]
    }

    /// Resize the given backing buffer to `rows x cols` cells, reusing its
    /// capacity, and view it as a matrix.
    pub fn new(matrix: Vec<MatrixCell>, rows: usize, cols: usize) -> (m: ScoreMatrix)
        requires
            rows * cols <= usize::MAX,
        ensures
            m.wf(),
            m.spec_rows() == rows,
            m.spec_cols() == cols,
    {
        let mut matrix = matrix;
        let n = rows * cols;
        matrix.resize(n, MatrixCell::empty());
        ScoreMatrix { cells: matrix, rows, cols }
    }

    /// Hand the backing buffer back, e.g. to a scratch cache.
    pub fn into_cells(self) -> Vec<MatrixCell> {
        self.cells
    }

    fn num_rows(&self) -> (r: usize)
        ensures
            r as int == self.spec_rows(),
    {
        self.rows
    }

    fn num_cols(&self) -> (r: usize)
        ensures
            r as int == self.spec_cols(),
    {
        self.cols
    }

    proof fn lemma_index_in_bounds(&self, row: int, col: int)
        requires
            self.wf(),
            0 <= row < self.spec_rows(),
            0 <= col < self.spec_cols(),
        ensures
            0 <= row * self.spec_cols() + col < self.cells@.len(),
    {
        let r = self.spec_rows();
        let c = self.spec_cols();
        assert(row * c + col < r * c) by (nonlinear_arith)
            requires
                0 <= row < r,
                0 <= col < c,
        ;
        assert(row * c + col >= 0) by (nonlinear_arith)
            requires
                0 <= row,
                0 <= col,
                c > 0,
        ;
    }

    fn get_score(&self, row: usize, col: usize) -> (s: i32)
        requires
            self.wf(),
            row < self.spec_rows(),
            col < self.spec_cols(),
        ensures
            s == self.cell(row as int, col as int).score,
    {
        let n = self.cells.len();
        proof {
            self.lemma_index_in_bounds(row as int, col as int);
        }
        let idx = row * self.cols + col;
        self.cells[idx].score
    }

    fn get_movement(&self, row: usize, col: usize) -> (mv: Movement)
        requires
            self.wf(),
            row < self.spec_rows(),
            col < self.spec_cols(),
        ensures
            mv == self.cell(row as int, col as int).movement,
    {
        let n = self.cells.len();
        proof {
            self.lemma_index_in_bounds(row as int, col as int);
        }
        let idx = row * self.cols + col;
        self.cells[idx].movement
    }

    fn set_cell(&mut self, row: usize, col: usize, score: i32, movement: Movement)
        requires
            old(self).wf(),
            row < old(self).spec_rows(),
            col < old(self).spec_cols(),
        ensures
            final(self).wf(),
            final(self).spec_rows() == old(self).spec_rows(),
            final(self).spec_cols() == old(self).spec_cols(),
            final(self).cell(row as int, col as int).score == score,
            final(self).cell(row as int, col as int).movement == movement,
            forall|r: int, c: int|
                0 <= r < old(self).spec_rows() && 0 <= c < old(self).spec_cols() && !(r == row
                    && c == col) ==> final(self).cell(r, c) == old(self).cell(r, c),
    {
        let n = self.cells.len();
        proof {
            self.lemma_index_in_bounds(row as int, col as int);
        }
        let idx = row * self.cols + col;
        self.cells[idx] = MatrixCell { movement, score };
        proof {
            let ghost cols = self.spec_cols();
            assert forall|r: int, c: int|
                0 <= r < self.spec_rows() && 0 <= c < cols && !(r == row && c == col) implies self
                .cell(r, c) == old(self).cell(r, c) by {
                self.lemma_index_in_bounds(r, c);
                if r * cols + c == row * cols + c {
                    assert(r == row) by (nonlinear_arith)
                        requires
                            r * cols + c == row * cols + c,
                            cols > 0,
                    ;
                }
                if r * cols + c == row * cols + col && r != row {
                    assert(false) by (nonlinear_arith)
                        requires
                            r * cols + c == row * cols + col,
                            0 <= c < cols,
                            0 <= col < cols,
                            r != row,
                            cols > 0,
                    ;
                }
            }
        }
    }
}

/// `x` brought into signed 32-bit range.
pub open spec fn clip32(x: int) -> int {
    if x > i32::MAX {
        i32::MAX as int
    } else if x < i32::MIN {
        i32::MIN as int
    } else {
        x
    }
}

/// `x` brought into signed 64-bit range.
pub open spec fn clip64(x: int) -> int {
    if x > i64::MAX {
        i64::MAX as int
    } else if x < i64::MIN {
        i64::MIN as int
    } else {
        x
    }
}

pub open spec fn max_int(a: int, b: int) -> int {
    if a >= b {
        a
    } else {
        b
    }
}

/// The character before position `j` of the choice; the nil sentinel for the
/// first position.
pub open spec fn prev_char_at(cs: Seq<char>, j: int) -> char {
    if j <= 0 {
        '\0'
    } else {
        cs[j - 1]
    }
}

/// The in-place bonus of a match, from the role of the matched position.
pub open spec fn in_place_bonus_spec(cfg: SkimScoreConfig, prev_ch: char, c: char) -> int {
    match char_role_of_types(char_type_of(prev_ch), char_type_of(c)) {
        CharRole::Head => cfg.bonus_head as int,
        CharRole::Camel => cfg.bonus_camel as int,
        CharRole::Break => cfg.bonus_break as int,
        CharRole::Tail => 0,
    }
}

/// The per-cell match score: `None` when the characters differ under the
/// case rule; otherwise `score_match` plus the in-place bonus (doubled by
/// the first-character multiplier at choice position 0, charged with the
/// case-mismatch penalty when folding was needed), clamped to at least 0 and
/// reduced to unsigned 16-bit range.
pub open spec fn match_score_spec(
    cfg: SkimScoreConfig,
    prev_ch: char,
    c: char,
    p: char,
    c_idx: int,
    case_sensitive: bool,
) -> Option<int> {
    if !char_eq(c, p, case_sensitive) {
        Option::None
    } else {
        let b0 = in_place_bonus_spec(cfg, prev_ch, c);
        let b1 = if c_idx == 0 {
            b0 * cfg.bonus_first_char_multiplier
        } else {
            b0
        };
        let b2 = if !case_sensitive && p != c {
            b1 + cfg.penalty_case_mismatch
        } else {
            b1
        };
        let t = cfg.score_match + b2;
        Option::Some(
            if t < 0 {
                0
            } else {
                t % 0x10000
            },
        )
    }
}

/// Value of the match-ending matrix `M` at `(i, j)`.
pub open spec fn m_score(
    cfg: SkimScoreConfig,
    cs: Seq<char>,
    ps: Seq<char>,
    case_sensitive: bool,
    i: int,
    j: int,
) -> int
    decreases i, j,
{
    if i <= 0 || j <= 0 {
        MATRIX_CELL_NEG_INFINITY as int
    } else {
        match match_score_spec(cfg, prev_char_at(cs, j - 1), cs[j - 1], ps[i - 1], j - 1,
            case_sensitive) {
            Option::None => MATRIX_CELL_NEG_INFINITY as int,
            Option::Some(ms) => clip32(
                ms + max_int(
                    m_score(cfg, cs, ps, case_sensitive, i - 1, j - 1)
                        + cfg.bonus_consecutive,
                    p_score(cfg, cs, ps, case_sensitive, i - 1, j - 1),
                ),
            ),
        }
    }
}

/// Value of the gap-ending matrix `P` at `(i, j)`. Its row 0 holds one gap
/// extension at every column: a purely skipped prefix costs no gap start.
pub open spec fn p_score(
    cfg: SkimScoreConfig,
    cs: Seq<char>,
    ps: Seq<char>,
    case_sensitive: bool,
    i: int,
    j: int,
) -> int
    decreases i, j,
{
    if i <= 0 {
        cfg.gap_extension as int
    } else if j <= 0 {
        MATRIX_CELL_NEG_INFINITY as int
    } else {
        clip32(
            max_int(
                cfg.gap_start + cfg.gap_extension + m_score(cfg, cs, ps, case_sensitive, i, j - 1),
                cfg.gap_extension + p_score(cfg, cs, ps, case_sensitive, i, j - 1),
            ),
        )
    }
}

/// Movement stored with `M[i][j]`: `Match` iff the match-continuing term won
/// the maximum in the recurrence.
pub open spec fn m_movement(
    cfg: SkimScoreConfig,
    cs: Seq<char>,
    ps: Seq<char>,
    case_sensitive: bool,
    i: int,
    j: int,
) -> Movement {
    if i <= 0 || j <= 0 {
        Movement::Skip
    } else if match_score_spec(cfg, prev_char_at(cs, j - 1), cs[j - 1], ps[i - 1], j - 1,
        case_sensitive) is None {
        Movement::Skip
    } else if m_score(cfg, cs, ps, case_sensitive, i - 1, j - 1) + cfg.bonus_consecutive >= p_score(
        cfg,
        cs,
        ps,
        case_sensitive,
        i - 1,
        j - 1,
    ) {
        Movement::Match
    } else {
        Movement::Skip
    }
}

/// Movement stored with `P[i][j]`: `Match` iff the gap was opened from `M`.
pub open spec fn p_movement(
    cfg: SkimScoreConfig,
    cs: Seq<char>,
    ps: Seq<char>,
    case_sensitive: bool,
    i: int,
    j: int,
) -> Movement {
    if i <= 0 || j <= 0 {
        Movement::Skip
    } else if cfg.gap_start + cfg.gap_extension + m_score(cfg, cs, ps, case_sensitive, i, j - 1)
        >= cfg.gap_extension + p_score(cfg, cs, ps, case_sensitive, i, j - 1) {
        Movement::Match
    } else {
        Movement::Skip
    }
}

/// The physical row that holds logical row `i`: rows alternate when the
/// matrix is compressed to two rows.
pub open spec fn phys_row(i: int, compressed: bool) -> int {
    if compressed {
        i % 2
    } else {
        i
    }
}

/// The matrix cell at `(r, c)` of `mm` holds the value and movement of the
/// logical `M` cell `(i, j)`.
pub open spec fn m_cell_ok(
    mm: ScoreMatrix,
    cfg: SkimScoreConfig,
    cs: Seq<char>,
    ps: Seq<char>,
    case_sensitive: bool,
    r: int,
    c: int,
    i: int,
    j: int,
) -> bool {
    mm.cell(r, c).score == m_score(cfg, cs, ps, case_sensitive, i, j) && mm.cell(r, c).movement
        == m_movement(cfg, cs, ps, case_sensitive, i, j)
}

/// The matrix cell at `(r, c)` of `pm` holds the value and movement of the
/// logical `P` cell `(i, j)`.
pub open spec fn p_cell_ok(
    pm: ScoreMatrix,
    cfg: SkimScoreConfig,
    cs: Seq<char>,
    ps: Seq<char>,
    case_sensitive: bool,
    r: int,
    c: int,
    i: int,
    j: int,
) -> bool {
    pm.cell(r, c).score == p_score(cfg, cs, ps, case_sensitive, i, j) && pm.cell(r, c).movement
        == p_movement(cfg, cs, ps, case_sensitive, i, j)
}

/// Bring a 64-bit intermediate into 32-bit range.
fn clip32_exec(t: i64) -> (r: i32)
    ensures
        r as int == clip32(t as int),
{
    if t > i32::MAX as i64 {
        i32::MAX
    } else if t < i32::MIN as i64 {
        i32::MIN
    } else {
        t as i32
    }
}


/// Product of two 32-bit values, exact in 64 bits.
fn mul_i32_i64(a: i32, b: i32) -> (r: i64)
    ensures
        r as int == a as int * b as int,
        -0x4000_0000_0000_0000 <= r as int <= 0x4000_0000_0000_0000,
{
    proof {
        assert((-0x4000_0000_0000_0000) <= a as int * b as int <= 0x4000_0000_0000_0000)
            by (nonlinear_arith)
            requires
                -0x8000_0000 <= a as int <= 0x7fff_ffff,
                -0x8000_0000 <= b as int <= 0x7fff_ffff,
        ;
    }
    (a as i64) * (b as i64)
}

/// The in-place bonus for a match of a character of the given type after a
/// character of type `prev_char_type`.
fn in_place_bonus(cfg: &SkimScoreConfig, prev_char_type: CharType, char_type: CharType) -> (r:
    i32)
    ensures
        r as int == match char_role_of_types(prev_char_type, char_type) {
            CharRole::Head => cfg.bonus_head as int,
            CharRole::Camel => cfg.bonus_camel as int,
            CharRole::Break => cfg.bonus_break as int,
            CharRole::Tail => 0,
        },
{
    match CharRole::of_type(prev_char_type, char_type) {
        CharRole::Head => cfg.bonus_head,
        CharRole::Camel => cfg.bonus_camel,
        CharRole::Break => cfg.bonus_break,
        CharRole::Tail => 0i32,
    }
}

/// The matching score of choice character `c` against pattern character `p`,
/// or `None` if they do not match under the case rule.
fn calculate_match_score(
    cfg: &SkimScoreConfig,
    prev_ch: char,
    c: char,
    p: char,
    c_idx: usize,
    case_sensitive: bool,
) -> (r: Option<u16>)
    ensures
        r is Some <==> match_score_spec(*cfg, prev_ch, c, p, c_idx as int, case_sensitive)
            is Some,
        r is Some ==> r.unwrap() as int == match_score_spec(*cfg, prev_ch, c, p, c_idx as int,
            case_sensitive).unwrap(),
{
    if !char_equal(c, p, case_sensitive) {
        return Option::None;
    }
    let prev_ch_type = CharType::of(prev_ch);
    let ch_type = CharType::of(c);
    let b0: i32 = in_place_bonus(cfg, prev_ch_type, ch_type);
    let mut bonus: i64 = b0 as i64;
    if c_idx == 0 {
        bonus = mul_i32_i64(b0, cfg.bonus_first_char_multiplier);
    }
    if !case_sensitive && p != c {
        bonus = bonus + (cfg.penalty_case_mismatch as i64);
    }
    let t: i64 = (cfg.score_match as i64) + bonus;
    let clamped: i64 = if t < 0 {
        0
    } else {
        t % 0x10000
    };
    Option::Some(clamped as u16)
}

} // verus!

verus! {

/// The physical row used for logical row `row_idx`: the two rows rotate
/// when the matrix is compressed.
fn adjust_row_idx(row_idx: usize, compressed: bool) -> (r: usize)
    ensures
        r as int == phys_row(row_idx as int, compressed),
        compressed ==> r < 2,
        !compressed ==> r == row_idx,
{
    if compressed {
        row_idx % 2
    } else {
        row_idx
    }
}

/// Fill both matrices with the affine-gap recurrence over the whole choice
/// and pattern. Afterwards the physical row holding logical row
/// `pattern.len()` carries the final `M` values; without compression every
/// logical cell of both matrices is materialized.
#[verifier::rlimit(100)]
#[verifier::spinoff_prover]
#[verifier::loop_isolation(false)]
fn build_score_matrix(
    cfg: &SkimScoreConfig,
    m: &mut ScoreMatrix,
    p: &mut ScoreMatrix,
    choice: &Vec<char>,
    pattern: &Vec<char>,
    compressed: bool,
    case_sensitive: bool,
)
    requires
        old(m).wf(),
        old(p).wf(),
        old(m).spec_cols() == choice@.len() + 1,
        old(p).spec_cols() == choice@.len() + 1,
        old(m).spec_rows() == (if compressed {
            2int
        } else {
            pattern@.len() + 1int
        }),
        old(p).spec_rows() == old(m).spec_rows(),
        pattern@.len() >= 1,
    ensures
        final(m).wf(),
        final(p).wf(),
        final(m).spec_rows() == old(m).spec_rows(),
        final(m).spec_cols() == old(m).spec_cols(),
        final(p).spec_rows() == old(p).spec_rows(),
        final(p).spec_cols() == old(p).spec_cols(),
        forall|j: int|
            0 <= j <= choice@.len() ==> m_cell_ok(
                *final(m),
                *cfg,
                choice@,
                pattern@,
                case_sensitive,
                phys_row(pattern@.len() as int, compressed),
                j,
                pattern@.len() as int,
                j,
            ),
        !compressed ==> forall|i: int, j: int|
            0 <= i <= pattern@.len() && 0 <= j <= choice@.len() ==> m_cell_ok(
                *final(m),
                *cfg,
                choice@,
                pattern@,
                case_sensitive,
                i,
                j,
                i,
                j,
            ) && p_cell_ok(*final(p), *cfg, choice@, pattern@, case_sensitive, i, j, i, j),
{
    let ghost cs = choice@;
    let ghost ps = pattern@;
    let ghost cfg_v = *cfg;
    let np = pattern.len();
    let nc = choice.len();
    let rcount = m.num_rows();
    let ccount = m.num_cols();

    let mut r: usize = 0;
    while r < rcount
        invariant
            m.wf(),
            m.spec_rows() == rcount,
            m.spec_cols() == ccount,
            ccount >= 1,
            r <= rcount,
        decreases rcount - r,
    {
        m.set_cell(r, 0, MATRIX_CELL_NEG_INFINITY, Movement::Skip);
        r = r + 1;
    }

    let mut j: usize = 0;
    while j < ccount
        invariant
            m.wf(),
            m.spec_rows() == rcount,
            m.spec_cols() == ccount,
            ccount == cs.len() + 1,
            rcount >= 1,
            j <= ccount,
            forall|jj: int|
                0 <= jj < j ==> m.cell(0, jj).score == MATRIX_CELL_NEG_INFINITY as int
                    && m.cell(0, jj).movement == Movement::Skip,
        decreases ccount - j,
    {
        m.set_cell(0, j, MATRIX_CELL_NEG_INFINITY, Movement::Skip);
        j = j + 1;
    }

    let mut r2: usize = 0;
    while r2 < rcount
        invariant
            p.wf(),
            p.spec_rows() == rcount,
            p.spec_cols() == ccount,
            ccount >= 1,
            r2 <= rcount,
        decreases rcount - r2,
    {
        p.set_cell(r2, 0, MATRIX_CELL_NEG_INFINITY, Movement::Skip);
        r2 = r2 + 1;
    }

    let mut j2: usize = 0;
    while j2 < ccount
        invariant
            p.wf(),
            p.spec_rows() == rcount,
            p.spec_cols() == ccount,
            ccount == cs.len() + 1,
            rcount >= 1,
            j2 <= ccount,
            forall|jj: int|
                0 <= jj < j2 ==> p.cell(0, jj).score == cfg_v.gap_extension as int && p.cell(
                    0,
                    jj,
                ).movement == Movement::Skip,
        decreases ccount - j2,
    {
        p.set_cell(0, j2, cfg.gap_extension, Movement::Skip);
        j2 = j2 + 1;
    }

    proof {
        assert forall|jj: int| 0 <= jj <= cs.len() implies m_cell_ok(
            *m,
            cfg_v,
            cs,
            ps,
            case_sensitive,
            phys_row(0, compressed),
            jj,
            0,
            jj,
        ) && p_cell_ok(*p, cfg_v, cs, ps, case_sensitive, phys_row(0, compressed), jj, 0, jj) by {
            assert(phys_row(0, compressed) == 0);
        }
    }

    let mut i: usize = 0;
    while i < np
        invariant
            m.wf(),
            p.wf(),
            m.spec_rows() == rcount,
            m.spec_cols() == ccount,
            p.spec_rows() == rcount,
            p.spec_cols() == ccount,
            ccount == cs.len() + 1,
            rcount == (if compressed {
                2int
            } else {
                ps.len() + 1int
            }),
            np == ps.len(),
            nc == cs.len(),
            i <= np,
            forall|jj: int|
                0 <= jj <= cs.len() ==> m_cell_ok(
                    *m,
                    cfg_v,
                    cs,
                    ps,
                    case_sensitive,
                    phys_row(i as int, compressed),
                    jj,
                    i as int,
                    jj,
                ) && p_cell_ok(
                    *p,
                    cfg_v,
                    cs,
                    ps,
                    case_sensitive,
                    phys_row(i as int, compressed),
                    jj,
                    i as int,
                    jj,
                ),
            !compressed ==> forall|ii: int, jj: int|
                0 <= ii <= i && 0 <= jj <= cs.len() ==> m_cell_ok(
                    *m,
                    cfg_v,
                    cs,
                    ps,
                    case_sensitive,
                    ii,
                    jj,
                    ii,
                    jj,
                ) && p_cell_ok(*p, cfg_v, cs, ps, case_sensitive, ii, jj, ii, jj),
        decreases np - i,
    {
        let p_ch = pattern[i];
        let row = adjust_row_idx(i + 1, compressed);
        let row_prev = adjust_row_idx(i, compressed);
        let ghost li = i as int + 1;
        proof {
            if compressed {
                assert(phys_row(li, compressed) != phys_row(i as int, compressed));
            }
        }
        let ghost m_snap = *m;
        let ghost p_snap = *p;
        m.set_cell(row, 0, MATRIX_CELL_NEG_INFINITY, Movement::Skip);
        p.set_cell(row, 0, MATRIX_CELL_NEG_INFINITY, Movement::Skip);
        proof {
            assert forall|jj: int| 0 <= jj <= cs.len() implies m_cell_ok(
                *m,
                cfg_v,
                cs,
                ps,
                case_sensitive,
                row_prev as int,
                jj,
                i as int,
                jj,
            ) && p_cell_ok(*p, cfg_v, cs, ps, case_sensitive, row_prev as int, jj, i as int, jj) by {
                assert(m_cell_ok(m_snap, cfg_v, cs, ps, case_sensitive, phys_row(i as int,
                    compressed), jj, i as int, jj));
                assert(p_cell_ok(p_snap, cfg_v, cs, ps, case_sensitive, phys_row(i as int,
                    compressed), jj, i as int, jj));
                assert(m.cell(row_prev as int, jj) == m_snap.cell(row_prev as int, jj));
                assert(p.cell(row_prev as int, jj) == p_snap.cell(row_prev as int, jj));
            }
            if !compressed {
                assert forall|ii: int, jj: int|
                    0 <= ii <= i && 0 <= jj <= cs.len() implies m_cell_ok(
                    *m,
                    cfg_v,
                    cs,
                    ps,
                    case_sensitive,
                    ii,
                    jj,
                    ii,
                    jj,
                ) && p_cell_ok(*p, cfg_v, cs, ps, case_sensitive, ii, jj, ii, jj) by {
                    assert(m_cell_ok(m_snap, cfg_v, cs, ps, case_sensitive, ii, jj, ii, jj));
                    assert(p_cell_ok(p_snap, cfg_v, cs, ps, case_sensitive, ii, jj, ii, jj));
                    assert(ii != row as int);
                    assert(m.cell(ii, jj) == m_snap.cell(ii, jj));
                    assert(p.cell(ii, jj) == p_snap.cell(ii, jj));
                }
            }
        }

        let mut prev_ch: char = '\0';
        let mut j3: usize = 0;
        while j3 < nc
            invariant
                m.wf(),
                p.wf(),
                m.spec_rows() == rcount,
                m.spec_cols() == ccount,
                p.spec_rows() == rcount,
                p.spec_cols() == ccount,
                ccount == cs.len() + 1,
                rcount == (if compressed {
                    2int
                } else {
                    ps.len() + 1int
                }),
                np == ps.len(),
                nc == cs.len(),
                i < np,
                j3 <= nc,
                li == i as int + 1,
                p_ch == ps[i as int],
                row as int == phys_row(li, compressed),
                row_prev as int == phys_row(i as int, compressed),
                row as int != row_prev as int,
                row < rcount,
                row_prev < rcount,
                prev_ch == prev_char_at(cs, j3 as int),
                forall|jj: int|
                    0 <= jj <= cs.len() ==> m_cell_ok(
                        *m,
                        cfg_v,
                        cs,
                        ps,
                        case_sensitive,
                        row_prev as int,
                        jj,
                        i as int,
                        jj,
                    ) && p_cell_ok(
                        *p,
                        cfg_v,
                        cs,
                        ps,
                        case_sensitive,
                        row_prev as int,
                        jj,
                        i as int,
                        jj,
                    ),
                forall|jj: int|
                    0 <= jj <= j3 ==> m_cell_ok(
                        *m,
                        cfg_v,
                        cs,
                        ps,
                        case_sensitive,
                        row as int,
                        jj,
                        li,
                        jj,
                    ) && p_cell_ok(*p, cfg_v, cs, ps, case_sensitive, row as int, jj, li, jj),
                !compressed ==> forall|ii: int, jj: int|
                    0 <= ii <= i && 0 <= jj <= cs.len() ==> m_cell_ok(
                        *m,
                        cfg_v,
                        cs,
                        ps,
                        case_sensitive,
                        ii,
                        jj,
                        ii,
                        jj,
                    ) && p_cell_ok(*p, cfg_v, cs, ps, case_sensitive, ii, jj, ii, jj),
            decreases nc - j3,
        {
            let c_ch = choice[j3];
            let col = j3 + 1;
            let col_prev = j3;
            let ghost lj = j3 as int + 1;
            let ghost m_top = *m;
            let ghost p_top = *p;
            proof {
                assert(m_cell_ok(m_top, cfg_v, cs, ps, case_sensitive, row_prev as int, j3 as int,
                    i as int, j3 as int));
                assert(p_cell_ok(p_top, cfg_v, cs, ps, case_sensitive, row_prev as int, j3 as int,
                    i as int, j3 as int));
                assert(m_cell_ok(m_top, cfg_v, cs, ps, case_sensitive, row as int, j3 as int, li,
                    j3 as int));
                assert(p_cell_ok(p_top, cfg_v, cs, ps, case_sensitive, row as int, j3 as int, li,
                    j3 as int));
            }

            match calculate_match_score(cfg, prev_ch, c_ch, p_ch, j3, case_sensitive) {
                Option::Some(ms) => {
                    let pm = m.get_score(row_prev, col_prev);
                    let psk = p.get_score(row_prev, col_prev);
                    proof {
                        assert(pm as int == m_score(cfg_v, cs, ps, case_sensitive, i as int,
                            j3 as int));
                        assert(psk as int == p_score(cfg_v, cs, ps, case_sensitive, i as int,
                            j3 as int));
                    }
                    let cont: i64 = pm as i64 + cfg.bonus_consecutive as i64;
                    let best: i64 = if cont >= psk as i64 {
                        cont
                    } else {
                        psk as i64
                    };
                    let mv = if cont >= psk as i64 {
                        Movement::Match
                    } else {
                        Movement::Skip
                    };
                    let t: i64 = ms as i64 + best;
                    m.set_cell(row, col, clip32_exec(t), mv);
                },
                Option::None => {
                    m.set_cell(row, col, MATRIX_CELL_NEG_INFINITY, Movement::Skip);
                },
            }
            proof {
                assert(m.cell(row as int, lj).score == m_score(cfg_v, cs, ps, case_sensitive, li,
                    lj));
                assert(m.cell(row as int, lj).movement == m_movement(cfg_v, cs, ps,
                    case_sensitive, li, lj));
                assert(m.cell(row as int, j3 as int) == m_top.cell(row as int, j3 as int));
            }

            let pm2: i64 = cfg.gap_start as i64 + cfg.gap_extension as i64 + m.get_score(
                row,
                col_prev,
            ) as i64;
            let ps2: i64 = cfg.gap_extension as i64 + p.get_score(row, col_prev) as i64;
            if pm2 >= ps2 {
                p.set_cell(row, col, clip32_exec(pm2), Movement::Match);
            } else {
                p.set_cell(row, col, clip32_exec(ps2), Movement::Skip);
            }
            proof {
                assert(p.cell(row as int, lj).score == p_score(cfg_v, cs, ps, case_sensitive, li,
                    lj));
                assert(p.cell(row as int, lj).movement == p_movement(cfg_v, cs, ps,
                    case_sensitive, li, lj));
            }
            proof {
                assert forall|jj: int| 0 <= jj <= lj implies m_cell_ok(
                    *m,
                    cfg_v,
                    cs,
                    ps,
                    case_sensitive,
                    row as int,
                    jj,
                    li,
                    jj,
                ) && p_cell_ok(*p, cfg_v, cs, ps, case_sensitive, row as int, jj, li, jj) by {
                    if jj < lj {
                        assert(m_cell_ok(m_top, cfg_v, cs, ps, case_sensitive, row as int, jj, li,
                            jj));
                        assert(p_cell_ok(p_top, cfg_v, cs, ps, case_sensitive, row as int, jj, li,
                            jj));
                        assert(m.cell(row as int, jj) == m_top.cell(row as int, jj));
                        assert(p.cell(row as int, jj) == p_top.cell(row as int, jj));
                    }
                }
                assert forall|jj: int| 0 <= jj <= cs.len() implies m_cell_ok(
                    *m,
                    cfg_v,
                    cs,
                    ps,
                    case_sensitive,
                    row_prev as int,
                    jj,
                    i as int,
                    jj,
                ) && p_cell_ok(*p, cfg_v, cs, ps, case_sensitive, row_prev as int, jj, i as int,
                    jj) by {
                    assert(m_cell_ok(m_top, cfg_v, cs, ps, case_sensitive, row_prev as int, jj,
                        i as int, jj));
                    assert(p_cell_ok(p_top, cfg_v, cs, ps, case_sensitive, row_prev as int, jj,
                        i as int, jj));
                    assert(m.cell(row_prev as int, jj) == m_top.cell(row_prev as int, jj));
                    assert(p.cell(row_prev as int, jj) == p_top.cell(row_prev as int, jj));
                }
                if !compressed {
                    assert forall|ii: int, jj: int|
                        0 <= ii <= i && 0 <= jj <= cs.len() implies m_cell_ok(
                        *m,
                        cfg_v,
                        cs,
                        ps,
                        case_sensitive,
                        ii,
                        jj,
                        ii,
                        jj,
                    ) && p_cell_ok(*p, cfg_v, cs, ps, case_sensitive, ii, jj, ii, jj) by {
                        assert(m_cell_ok(m_top, cfg_v, cs, ps, case_sensitive, ii, jj, ii, jj));
                        assert(p_cell_ok(p_top, cfg_v, cs, ps, case_sensitive, ii, jj, ii, jj));
                        assert(ii != row as int);
                        assert(m.cell(ii, jj) == m_top.cell(ii, jj));
                        assert(p.cell(ii, jj) == p_top.cell(ii, jj));
                    }
                }
            }

            prev_ch = c_ch;
            j3 = j3 + 1;
        }
        i = i + 1;
    }
}

} // verus!

verus! {

/// The case policy of the affine-gap matcher.
#[derive(Eq, PartialEq, Structural, Debug, Copy, Clone)]
pub enum CaseMatching {
    Respect,
    Ignore,
    Smart,
}

/// Whether matching is case-sensitive under `case` for this pattern:
/// `Smart` respects case exactly when the pattern contains an ASCII
/// upper-case letter.
pub open spec fn case_sensitive_spec(case: CaseMatching, ps: Seq<char>) -> bool {
    match case {
        CaseMatching::Respect => true,
        CaseMatching::Ignore => false,
        CaseMatching::Smart => crate::chars::contains_upper_spec(ps),
    }
}

/// The best score over the last pattern row of `M`, together with the
/// column attaining it, scanning columns `0..=j`; on ties the later column
/// wins.
pub open spec fn best_score_upto(
    cfg: SkimScoreConfig,
    cs: Seq<char>,
    ps: Seq<char>,
    case_sensitive: bool,
    j: int,
) -> (int, int)
    decreases j,
{
    if j <= 0 {
        (m_score(cfg, cs, ps, case_sensitive, ps.len() as int, 0), 0)
    } else {
        let prev = best_score_upto(cfg, cs, ps, case_sensitive, j - 1);
        if m_score(cfg, cs, ps, case_sensitive, ps.len() as int, j) >= prev.0 {
            (m_score(cfg, cs, ps, case_sensitive, ps.len() as int, j), j)
        } else {
            prev
        }
    }
}

/// The final score and its column: the maximum of the last pattern row.
pub open spec fn v2_best(
    cfg: SkimScoreConfig,
    cs: Seq<char>,
    ps: Seq<char>,
    case_sensitive: bool,
) -> (int, int) {
    best_score_upto(cfg, cs, ps, case_sensitive, cs.len() as int)
}

/// The matched score of the affine-gap alignment.
pub open spec fn v2_score_spec(
    cfg: SkimScoreConfig,
    cs: Seq<char>,
    ps: Seq<char>,
    case_sensitive: bool,
) -> int {
    v2_best(cfg, cs, ps, case_sensitive).0
}

/// The columns visited by the traceback, newest first. Starting from cell
/// `(i, j)` of `M` (when `at_m`) or `P`, the walk emits `j - 1` on every
/// step through `M`, reads the stored movement, steps left (and, in `M`,
/// up), and switches to `M` on a `Match` movement and to `P` otherwise.
pub open spec fn traceback_rev(
    cfg: SkimScoreConfig,
    cs: Seq<char>,
    ps: Seq<char>,
    case_sensitive: bool,
    i: int,
    j: int,
    at_m: bool,
) -> Seq<int>
    decreases j,
{
    if i <= 0 || j <= 0 {
        Seq::empty()
    } else {
        let emit: Seq<int> = if at_m {
            seq![j - 1]
        } else {
            Seq::empty()
        };
        let mv = if at_m {
            m_movement(cfg, cs, ps, case_sensitive, i, j)
        } else {
            p_movement(cfg, cs, ps, case_sensitive, i, j)
        };
        let i2 = if at_m {
            i - 1
        } else {
            i
        };
        emit + traceback_rev(cfg, cs, ps, case_sensitive, i2, j - 1, mv == Movement::Match)
    }
}

/// The indices handed back with the score: the traceback from the argmax
/// column of the last pattern row, oldest first.
pub open spec fn v2_positions_spec(
    cfg: SkimScoreConfig,
    cs: Seq<char>,
    ps: Seq<char>,
    case_sensitive: bool,
) -> Seq<int> {
    traceback_rev(
        cfg,
        cs,
        ps,
        case_sensitive,
        ps.len() as int,
        v2_best(cfg, cs, ps, case_sensitive).1,
        true,
    ).reverse()
}

/// Relates an executable result to its mathematical counterpart.
pub open spec fn result_matches(
    r: Option<(ScoreType, Vec<IndexType>)>,
    s: Option<(int, Seq<int>)>,
) -> bool {
    match (r, s) {
        (Option::None, Option::None) => true,
        (Option::Some((sc, ix)), Option::Some((ss, si))) => sc as int == ss && ix@.map_values(
            |x: usize| x as int,
        ) == si,
        _ => false,
    }
}

} // verus!

verus! {

/// The indices consumed by the greedy forward scan embedding `ps[pi..]`
/// into `cs[ci..]`: each pattern character takes the first eligible choice
/// character. `None` when the pattern cannot be embedded.
pub open spec fn greedy_indices_from(
    cs: Seq<char>,
    ps: Seq<char>,
    case_sensitive: bool,
    ci: int,
    pi: int,
) -> Option<Seq<int>>
    decreases cs.len() - ci when 0 <= ci <= cs.len()
{
    if pi >= ps.len() {
        Option::Some(Seq::empty())
    } else if ci >= cs.len() {
        Option::None
    } else if char_eq(cs[ci], ps[pi], case_sensitive) {
        match greedy_indices_from(cs, ps, case_sensitive, ci + 1, pi + 1) {
            Option::None => Option::None,
            Option::Some(t) => Option::Some(seq![ci] + t),
        }
    } else {
        greedy_indices_from(cs, ps, case_sensitive, ci + 1, pi)
    }
}

/// Where the right-anchored backward scan places the first pattern
/// character inside the window `w`: walking `w` from `idx` leftward and the
/// pattern from `pi` down, each match records its position; the scan stops
/// when the pattern is exhausted. `cur` is the position recorded so far.
pub open spec fn back_nearest(
    w: Seq<char>,
    ps: Seq<char>,
    case_sensitive: bool,
    idx: int,
    pi: int,
    cur: int,
) -> int
    decreases idx + 1 when idx >= -1
{
    if idx < 0 || pi < 0 {
        cur
    } else if char_eq(w[idx], ps[pi], case_sensitive) {
        if pi == 0 {
            idx
        } else {
            back_nearest(w, ps, case_sensitive, idx - 1, pi - 1, idx)
        }
    } else {
        back_nearest(w, ps, case_sensitive, idx - 1, pi, cur)
    }
}

/// Score and positions of the windowed linear scan: walking the window `w`
/// from `k` with the pattern at `pi`, a match adds its match score plus the
/// consecutive-run bonus; a miss charges one gap extension, plus the gap
/// start on entering a gap. Positions are window indices shifted by
/// `start_chars`, the number of choice characters before the window's
/// unadjusted start. The accumulator saturates in 64-bit range.
pub open spec fn window_score(
    cfg: SkimScoreConfig,
    w: Seq<char>,
    ps: Seq<char>,
    case_sensitive: bool,
    start_chars: int,
    k: int,
    pi: int,
    in_gap: bool,
    consec: int,
    acc: int,
) -> (int, Seq<int>)
    decreases w.len() - k when 0 <= k <= w.len()
{
    if k >= w.len() || pi >= ps.len() {
        (acc, Seq::empty())
    } else {
        let prev = if k == 0 {
            '\0'
        } else {
            w[k - 1]
        };
        match match_score_spec(cfg, prev, w[k], ps[pi], k + start_chars, case_sensitive) {
            Option::Some(ms) => {
                let acc2 = clip64(acc + ms + consec * cfg.bonus_consecutive);
                let rest = window_score(cfg, w, ps, case_sensitive, start_chars, k + 1, pi + 1,
                    false, consec + 1, acc2);
                (rest.0, seq![k + start_chars] + rest.1)
            },
            Option::None => {
                let acc2 = clip64(
                    acc + (if in_gap {
                        0
                    } else {
                        cfg.gap_start as int
                    }) + cfg.gap_extension,
                );
                window_score(cfg, w, ps, case_sensitive, start_chars, k + 1, pi, true, 0, acc2)
            },
        }
    }
}

/// What `simple_match` returns: `None` when the pattern does not embed;
/// otherwise the window between the greedy forward embedding's first match
/// (right-anchored by the backward scan) and one past its last match is
/// scored linearly.
pub open spec fn simple_match_spec(
    cfg: SkimScoreConfig,
    cs: Seq<char>,
    ps: Seq<char>,
    case_sensitive: bool,
    with_pos: bool,
) -> Option<(int, Seq<int>)> {
    match greedy_indices_from(cs, ps, case_sensitive, 0, 0) {
        Option::None => Option::None,
        Option::Some(ixs) => {
            let start0 = if ps.len() == 0 {
                0
            } else {
                ixs[0]
            };
            let endx = if ps.len() == 0 {
                0
            } else {
                ixs[ixs.len() - 1] + 1
            };
            let w0 = cs.subrange(start0, endx);
            let nearest = if ps.len() == 0 {
                0
            } else {
                back_nearest(w0, ps, case_sensitive, w0.len() - 1, ps.len() - 1, 0)
            };
            let w = cs.subrange(start0 + nearest, endx);
            let sc = window_score(cfg, w, ps, case_sensitive, start0, 0, 0, false, 0, 0);
            Option::Some(
                (
                    sc.0,
                    if with_pos {
                        sc.1
                    } else {
                        Seq::empty()
                    },
                ),
            )
        },
    }
}

/// The greedy forward scan succeeds exactly when an in-order embedding
/// exists, and its indices lie in `[ci, |cs|)`, strictly increase, match
/// the pattern under the case rule, and number one per pattern character.
pub proof fn lemma_greedy_indices(cs: Seq<char>, ps: Seq<char>, case_sensitive: bool, ci: int, pi: int)
    requires
        0 <= ci <= cs.len(),
        0 <= pi <= ps.len(),
    ensures
        greedy_indices_from(cs, ps, case_sensitive, ci, pi) is Some <==> crate::chars::subseq_match_from(
            cs,
            ps,
            case_sensitive,
            ci,
            pi,
        ),
        greedy_indices_from(cs, ps, case_sensitive, ci, pi) is Some ==> {
            let ixs = greedy_indices_from(cs, ps, case_sensitive, ci, pi).unwrap();
            &&& ixs.len() == ps.len() - pi
            &&& forall|k: int| 0 <= k < ixs.len() ==> ci <= #[trigger] ixs[k] < cs.len()
            &&& forall|k: int|
                0 <= k < ixs.len() - 1 ==> #[trigger] ixs[k] < ixs[k + 1]
            &&& forall|k: int|
                0 <= k < ixs.len() ==> char_eq(cs[#[trigger] ixs[k]], ps[pi + k], case_sensitive)
            &&& forall|k: int| 1 <= k < ixs.len() ==> ixs[0] < #[trigger] ixs[k]
        },
    decreases cs.len() - ci,
{
    if pi >= ps.len() {
    } else if ci >= cs.len() {
    } else {
        lemma_greedy_indices(cs, ps, case_sensitive, ci + 1, pi + 1);
        lemma_greedy_indices(cs, ps, case_sensitive, ci + 1, pi);
    }
}

} // verus!

verus! {

/// `s` prepended to the contents of `o`, when any.
pub open spec fn prepend_opt(s: Seq<int>, o: Option<Seq<int>>) -> Option<Seq<int>> {
    match o {
        Option::None => Option::None,
        Option::Some(t) => Option::Some(s + t),
    }
}

/// Bring a 128-bit intermediate into 64-bit range.
pub(crate) fn clip64_exec(t: i128) -> (r: i64)
    ensures
        r as int == clip64(t as int),
{
    if t > i64::MAX as i128 {
        i64::MAX
    } else if t < i64::MIN as i128 {
        i64::MIN
    } else {
        t as i64
    }
}

/// Product of a count and a 32-bit value, exact in 128 bits.
fn mul_usize_i32(a: usize, b: i32) -> (r: i128)
    ensures
        r as int == a as int * b as int,
        -0x8000_0000_0000_0000_0000_0000 <= r as int <= 0x8000_0000_0000_0000_0000_0000,
{
    proof {
        assert((-0x8000_0000_0000_0000_0000_0000) <= a as int * b as int
            <= 0x8000_0000_0000_0000_0000_0000) by (nonlinear_arith)
            requires
                0 <= a as int <= 0xffff_ffff_ffff_ffff,
                -0x8000_0000 <= b as int <= 0x7fff_ffff,
        ;
    }
    (a as i128) * (b as i128)
}

/// Greedy forward scan: the first matched choice index and one past the
/// last, or `None` when the pattern does not embed. An empty pattern yields
/// the empty window at the front.
#[verifier::rlimit(100)]
#[verifier::spinoff_prover]
#[verifier::loop_isolation(false)]
fn forward_scan(cs: &Vec<char>, ps: &Vec<char>, case_sensitive: bool) -> (r: Option<
    (usize, usize)>)
    ensures
        r is Some <==> greedy_indices_from(cs@, ps@, case_sensitive, 0, 0) is Some,
        r is Some ==> ({
            let ixs = greedy_indices_from(cs@, ps@, case_sensitive, 0, 0).unwrap();
            let (first, endx) = r.unwrap();
            &&& first as int == (if ps@.len() == 0 {
                0
            } else {
                ixs[0]
            })
            &&& endx as int == (if ps@.len() == 0 {
                0
            } else {
                ixs[ixs.len() - 1] + 1
            })
            &&& first <= endx <= cs@.len()
        }),
{
    let ghost csv = cs@;
    let ghost psv = ps@;
    let mut ci: usize = 0;
    let mut pi: usize = 0;
    let mut first: usize = 0;
    let mut have_first: bool = false;
    let mut endx: usize = 0;
    let ghost mut ixs_pre: Seq<int> = Seq::empty();
    while ci < cs.len() && pi < ps.len()
        invariant
            ci <= csv.len(),
            pi <= psv.len(),
            greedy_indices_from(csv, psv, case_sensitive, 0, 0) == prepend_opt(
                ixs_pre,
                greedy_indices_from(csv, psv, case_sensitive, ci as int, pi as int),
            ),
            ixs_pre.len() == pi,
            have_first <==> pi > 0,
            pi == 0 ==> first == 0 && endx == 0,
            pi > 0 ==> first as int == ixs_pre[0] && endx as int == ixs_pre[pi - 1] + 1,
            forall|t: int| 0 <= t < ixs_pre.len() ==> 0 <= #[trigger] ixs_pre[t] < ci,
        decreases csv.len() - ci,
    {
        if char_equal(cs[ci], ps[pi], case_sensitive) {
            if !have_first {
                first = ci;
                have_first = true;
            }
            endx = ci + 1;
            proof {
                let tail = greedy_indices_from(csv, psv, case_sensitive, ci as int + 1,
                    pi as int + 1);
                if tail is Some {
                    assert(ixs_pre + (seq![ci as int] + tail.unwrap()) =~= (ixs_pre + seq![
                        ci as int,
                    ]) + tail.unwrap());
                }
                ixs_pre = ixs_pre + seq![ci as int];
            }
            pi = pi + 1;
        }
        ci = ci + 1;
    }

    if pi < ps.len() {
        return Option::None;
    }
    proof {
        assert(greedy_indices_from(csv, psv, case_sensitive, ci as int, pi as int)
            == Option::Some(Seq::<int>::empty()));
        assert(ixs_pre + Seq::<int>::empty() =~= ixs_pre);
        assert(greedy_indices_from(csv, psv, case_sensitive, 0, 0) == Option::Some(ixs_pre));
        lemma_greedy_indices(csv, psv, case_sensitive, 0, 0);
        if psv.len() > 0 {
            assert(ixs_pre.len() == psv.len());
            assert(0 <= ixs_pre[0] < csv.len());
            assert(ixs_pre[ixs_pre.len() - 1] < csv.len());
            if ixs_pre.len() > 1 {
                assert(ixs_pre[0] < ixs_pre[ixs_pre.len() - 1]);
            }
            assert(first as int <= ixs_pre[ixs_pre.len() - 1]);
        }
    }
    Option::Some((first, endx))
}

/// Backward scan over the window `cs[first..endx]`: the offset that
/// right-anchors the pattern inside it.
#[verifier::rlimit(100)]
#[verifier::spinoff_prover]
#[verifier::loop_isolation(false)]
fn backward_anchor(
    cs: &Vec<char>,
    ps: &Vec<char>,
    case_sensitive: bool,
    first: usize,
    endx: usize,
) -> (nearest: usize)
    requires
        first <= endx <= cs@.len(),
    ensures
        nearest as int == (if ps@.len() == 0 {
            0
        } else {
            back_nearest(cs@.subrange(first as int, endx as int), ps@, case_sensitive, (endx
                - first) as int - 1, ps@.len() as int - 1, 0)
        }),
        first + nearest <= endx,
{
    let ghost csv = cs@;
    let ghost psv = ps@;
    let wlen = endx - first;
    let ghost w0v = csv.subrange(first as int, endx as int);
    let mut nearest: usize = 0;
    let mut idx: usize = wlen;
    let mut pr: usize = ps.len();
    while idx > 0 && pr > 0
        invariant
            idx <= wlen,
            pr <= psv.len(),
            nearest == 0 || nearest < wlen,
            psv.len() == 0 ==> nearest == 0,
            psv.len() > 0 ==> back_nearest(w0v, psv, case_sensitive, wlen as int - 1,
                psv.len() as int - 1, 0) == (if pr > 0 {
                back_nearest(w0v, psv, case_sensitive, idx as int - 1, pr as int - 1,
                    nearest as int)
            } else {
                nearest as int
            }),
        decreases idx,
    {
        let id2 = idx - 1;
        if char_equal(cs[first + id2], ps[pr - 1], case_sensitive) {
            proof {
                assert(w0v[id2 as int] == csv[first as int + id2 as int]);
            }
            nearest = id2;
            pr = pr - 1;
        }
        idx = id2;
    }
    proof {
        if psv.len() > 0 {
            if pr > 0 {
                assert(idx == 0);
                assert(back_nearest(w0v, psv, case_sensitive, idx as int - 1, pr as int - 1,
                    nearest as int) == nearest as int);
            }
            assert(back_nearest(w0v, psv, case_sensitive, wlen as int - 1, psv.len() as int - 1,
                0) == nearest as int);
            assert(w0v == cs@.subrange(first as int, endx as int));
            assert(wlen as int == (endx - first) as int);
        }
    }
    nearest
}

/// Score the window `cs[start..endx]` left to right, emitting positions
/// shifted by `start_chars` when requested.
#[verifier::rlimit(100)]
#[verifier::spinoff_prover]
#[verifier::loop_isolation(false)]
fn score_window(
    cfg: &SkimScoreConfig,
    cs: &Vec<char>,
    ps: &Vec<char>,
    case_sensitive: bool,
    start: usize,
    endx: usize,
    start_chars: usize,
    with_pos: bool,
) -> (r: (i64, Vec<usize>))
    requires
        start <= endx <= cs@.len(),
        start_chars <= start,
    ensures
        ({
            let sc = window_score(*cfg, cs@.subrange(start as int, endx as int), ps@,
                case_sensitive, start_chars as int, 0, 0, false, 0, 0);
            &&& r.0 as int == sc.0
            &&& with_pos ==> r.1@.map_values(|x: usize| x as int) == sc.1
            &&& !with_pos ==> r.1@.len() == 0
        }),
{
    let ghost csv = cs@;
    let ghost psv = ps@;
    let ghost cfg_v = *cfg;
    let ghost wv = csv.subrange(start as int, endx as int);
    let wlen2 = endx - start;
    let mut k: usize = 0;
    let mut pi3: usize = 0;
    let mut in_gap: bool = false;
    let mut consec: usize = 0;
    let mut acc: i64 = 0;
    let mut positions: Vec<usize> = Vec::new();
    while k < wlen2 && pi3 < ps.len()
        invariant
            k <= wlen2,
            pi3 <= psv.len(),
            consec <= k,
            window_score(cfg_v, wv, psv, case_sensitive, start_chars as int, 0, 0, false, 0, 0).0
                == window_score(cfg_v, wv, psv, case_sensitive, start_chars as int, k as int,
                pi3 as int, in_gap, consec as int, acc as int).0,
            with_pos ==> window_score(cfg_v, wv, psv, case_sensitive, start_chars as int, 0, 0,
                false, 0, 0).1 =~= positions@.map_values(|x: usize| x as int) + window_score(
                cfg_v, wv, psv, case_sensitive, start_chars as int, k as int, pi3 as int, in_gap,
                consec as int, acc as int).1,
            !with_pos ==> positions@.len() == 0,
        decreases wlen2 - k,
    {
        let prev: char = if k == 0 {
            '\0'
        } else {
            cs[start + k - 1]
        };
        let cc = cs[start + k];
        proof {
            assert(wv[k as int] == csv[start as int + k as int]);
            if k > 0 {
                assert(wv[k as int - 1] == csv[start as int + k as int - 1]);
            }
        }
        let ghost pos_old = positions@;
        match calculate_match_score(cfg, prev, cc, ps[pi3], k + start_chars, case_sensitive) {
            Option::Some(ms) => {
                if with_pos {
                    positions.push(k + start_chars);
                }
                let prod: i128 = mul_usize_i32(consec, cfg.bonus_consecutive);
                let t: i128 = acc as i128 + ms as i128 + prod;
                acc = clip64_exec(t);
                in_gap = false;
                consec = consec + 1;
                pi3 = pi3 + 1;
                proof {
                    if with_pos {
                        assert(positions@.map_values(|x: usize| x as int) =~= pos_old.map_values(
                            |x: usize| x as int,
                        ) + seq![k as int + start_chars as int]);
                    }
                }
            },
            Option::None => {
                let t: i128 = acc as i128 + (if in_gap {
                    0i128
                } else {
                    cfg.gap_start as i128
                }) + cfg.gap_extension as i128;
                acc = clip64_exec(t);
                in_gap = true;
                consec = 0;
            },
        }
        k = k + 1;
        proof {
            if with_pos {
                assert(window_score(cfg_v, wv, psv, case_sensitive, start_chars as int, 0, 0,
                    false, 0, 0).1 =~= positions@.map_values(|x: usize| x as int)
                    + window_score(cfg_v, wv, psv, case_sensitive, start_chars as int, k as int,
                    pi3 as int, in_gap, consec as int, acc as int).1);
            }
        }
    }
    proof {
        assert(window_score(cfg_v, wv, psv, case_sensitive, start_chars as int, k as int,
            pi3 as int, in_gap, consec as int, acc as int).1 =~= Seq::<int>::empty());
        if with_pos {
            assert(window_score(cfg_v, wv, psv, case_sensitive, start_chars as int, 0, 0, false,
                0, 0).1 =~= positions@.map_values(|x: usize| x as int));
        }
    }
    (acc, positions)
}

/// The oriented linear-scan scorer on character vectors: locate the
/// right-anchored greedy window, then score it in one pass.
#[verifier::rlimit(100)]
#[verifier::spinoff_prover]
fn simple_match_chars(
    cfg: &SkimScoreConfig,
    cs: &Vec<char>,
    ps: &Vec<char>,
    case_sensitive: bool,
    with_pos: bool,
) -> (r: Option<(ScoreType, Vec<IndexType>)>)
    ensures
        result_matches(r, simple_match_spec(*cfg, cs@, ps@, case_sensitive, with_pos)),
{
    let fwd = forward_scan(cs, ps, case_sensitive);
    match fwd {
        Option::None => Option::None,
        Option::Some((first, endx)) => {
            let nearest = backward_anchor(cs, ps, case_sensitive, first, endx);
            let start = first + nearest;
            let (score, positions) = score_window(cfg, cs, ps, case_sensitive, start, endx,
                first, with_pos);
            proof {
                if !with_pos {
                    assert(positions@.map_values(|x: usize| x as int) =~= Seq::<int>::empty());
                }
            }
            Option::Some((score, positions))
        },
    }
}

} // verus!
verus! {

/// What `fuzzy` returns: the empty pattern scores 0 with no indices; a
/// pattern that does not embed yields nothing; an oversized matrix (above
/// the element limit, or beyond addressable size) routes to the simple
/// fallback; otherwise the affine-gap alignment's best last-row score, with
/// the traceback indices when requested.
pub open spec fn v2_result_spec(
    cfg: SkimScoreConfig,
    limit: int,
    cs: Seq<char>,
    ps: Seq<char>,
    case_sensitive: bool,
    with_pos: bool,
) -> Option<(int, Seq<int>)> {
    if ps.len() == 0 {
        Option::Some((0, Seq::empty()))
    } else if !crate::chars::cheap_matches_spec(cs, ps, case_sensitive) {
        Option::None
    } else {
        let rows: int = if with_pos {
            ps.len() + 1int
        } else {
            2
        };
        let cols: int = cs.len() + 1int;
        if rows * cols > usize::MAX || (limit > 0 && limit < rows * cols) {
            simple_match_spec(cfg, cs, ps, case_sensitive, with_pos)
        } else {
            Option::Some(
                (
                    v2_score_spec(cfg, cs, ps, case_sensitive),
                    if with_pos {
                        v2_positions_spec(cfg, cs, ps, case_sensitive)
                    } else {
                        Seq::empty()
                    },
                ),
            )
        }
    }
}

/// `v` in the opposite order.
pub(crate) fn reversed_vec(v: &Vec<usize>) -> (r: Vec<usize>)
    ensures
        r@ == v@.reverse(),
{
    let mut r: Vec<usize> = Vec::new();
    let mut k: usize = v.len();
    while k > 0
        invariant
            k <= v@.len(),
            r@.len() == v@.len() - k,
            forall|t: int| 0 <= t < r@.len() ==> r@[t] == v@[v@.len() - 1 - t],
        decreases k,
    {
        k = k - 1;
        r.push(v[k]);
    }
    proof {
        assert(r@ =~= v@.reverse());
    }
    r
}

} // verus!

verus! {

use crate::chars::chars_of;
use crate::chars::contains_upper;
use crate::chars::cheap_matches_chars;
use crate::cache::scratch_new;
use crate::cache::scratch_take;
use crate::cache::scratch_put;
use crate::score::default_score_config;

/// The affine-gap fuzzy matcher, with tunable scoring, a case policy, an
/// optional element limit routing oversized inputs to the simple fallback,
/// and per-thread scratch buffers for its matrices.
pub struct SkimMatcherV2 {
    score_config: SkimScoreConfig,
    element_limit: usize,
    case: CaseMatching,
    use_cache: bool,
    m_cache: thread_local::ThreadLocal<std::cell::RefCell<Vec<MatrixCell>>>,
    p_cache: thread_local::ThreadLocal<std::cell::RefCell<Vec<MatrixCell>>>,
}

impl SkimMatcherV2 {
    pub closed spec fn spec_score_config(&self) -> SkimScoreConfig {
        self.score_config
    }

    pub closed spec fn spec_element_limit(&self) -> int {
        self.element_limit as int
    }

    pub closed spec fn spec_case(&self) -> CaseMatching {
        self.case
    }

    pub closed spec fn spec_use_cache(&self) -> bool {
        self.use_cache
    }

    /// Replace the scoring constants.
    pub fn score_config(self, score_config: SkimScoreConfig) -> (r: Self)
        ensures
            r.spec_score_config() == score_config,
            r.spec_element_limit() == self.spec_element_limit(),
            r.spec_case() == self.spec_case(),
            r.spec_use_cache() == self.spec_use_cache(),
    {
        let mut this = self;
        this.score_config = score_config;
        this
    }

    /// Route to the simple fallback above this many matrix cells; `0`
    /// disables the limit.
    pub fn element_limit(self, elements: usize) -> (r: Self)
        ensures
            r.spec_score_config() == self.spec_score_config(),
            r.spec_element_limit() == elements,
            r.spec_case() == self.spec_case(),
            r.spec_use_cache() == self.spec_use_cache(),
    {
        let mut this = self;
        this.element_limit = elements;
        this
    }

    /// Always fold ASCII case.
    pub fn ignore_case(self) -> (r: Self)
        ensures
            r.spec_score_config() == self.spec_score_config(),
            r.spec_element_limit() == self.spec_element_limit(),
            r.spec_case() == CaseMatching::Ignore,
            r.spec_use_cache() == self.spec_use_cache(),
    {
        let mut this = self;
        this.case = CaseMatching::Ignore;
        this
    }

    /// Respect case exactly when the pattern contains an ASCII upper-case
    /// letter.
    pub fn smart_case(self) -> (r: Self)
        ensures
            r.spec_score_config() == self.spec_score_config(),
            r.spec_element_limit() == self.spec_element_limit(),
            r.spec_case() == CaseMatching::Smart,
            r.spec_use_cache() == self.spec_use_cache(),
    {
        let mut this = self;
        this.case = CaseMatching::Smart;
        this
    }

    /// Always compare code points exactly.
    pub fn respect_case(self) -> (r: Self)
        ensures
            r.spec_score_config() == self.spec_score_config(),
            r.spec_element_limit() == self.spec_element_limit(),
            r.spec_case() == CaseMatching::Respect,
            r.spec_use_cache() == self.spec_use_cache(),
    {
        let mut this = self;
        this.case = CaseMatching::Respect;
        this
    }

    /// Whether to retain scratch capacity between calls on a thread.
    pub fn use_cache(self, use_cache: bool) -> (r: Self)
        ensures
            r.spec_score_config() == self.spec_score_config(),
            r.spec_element_limit() == self.spec_element_limit(),
            r.spec_case() == self.spec_case(),
            r.spec_use_cache() == use_cache,
    {
        let mut this = self;
        this.use_cache = use_cache;
        this
    }

    /// Borrowed from fzf's first design: when the memory limit would be
    /// exceeded, fall back to a simple linear search.
    pub fn simple_match(
        &self,
        choice: &str,
        pattern: &str,
        case_sensitive: bool,
        with_pos: bool,
    ) -> (r: Option<(ScoreType, Vec<IndexType>)>)
        ensures
            result_matches(
                r,
                simple_match_spec(self.spec_score_config(), choice@, pattern@, case_sensitive,
                    with_pos),
            ),
    {
        let cs = chars_of(choice);
        let ps = chars_of(pattern);
        simple_match_chars(&self.score_config, &cs, &ps, case_sensitive, with_pos)
    }

    /// Match `pattern` against `choice`, returning the score and, when
    /// `with_pos` is set, the matched character indices.
    #[verifier::rlimit(100)]
    #[verifier::spinoff_prover]
    #[verifier::loop_isolation(false)]
    pub fn fuzzy(&self, choice: &str, pattern: &str, with_pos: bool) -> (r: Option<
        (ScoreType, Vec<IndexType>)>)
        ensures
            result_matches(
                r,
                v2_result_spec(
                    self.spec_score_config(),
                    self.spec_element_limit(),
                    choice@,
                    pattern@,
                    case_sensitive_spec(self.spec_case(), pattern@),
                    with_pos,
                ),
            ),
    {
        let ghost cfg_v = self.score_config;
        let cs = chars_of(choice);
        let ps = chars_of(pattern);
        let ghost csv = cs@;
        let ghost psv = ps@;
        if ps.len() == 0 {
            let empty_positions: Vec<usize> = Vec::new();
            proof {
                assert(empty_positions@.map_values(|x: usize| x as int) =~= Seq::<int>::empty());
            }
            return Option::Some((0, empty_positions));
        }
        let case_sensitive = match self.case {
            CaseMatching::Respect => true,
            CaseMatching::Ignore => false,
            CaseMatching::Smart => contains_upper(&ps),
        };
        let compressed = !with_pos;
        if !cheap_matches_chars(&cs, &ps, case_sensitive) {
            return Option::None;
        }
        let np = ps.len();
        let nc = cs.len();
        let cols_opt = nc.checked_add(1);
        let rows_opt = if compressed {
            Option::Some(2usize)
        } else {
            np.checked_add(1)
        };
        let rc_opt: Option<usize> = match (rows_opt, cols_opt) {
            (Option::Some(rw), Option::Some(cl)) => rw.checked_mul(cl),
            _ => Option::None,
        };
        let ghost rows_i: int = if with_pos {
            psv.len() + 1int
        } else {
            2int
        };
        let ghost cols_i: int = csv.len() + 1int;
        proof {
            if rows_opt is None || cols_opt is None {
                assert(rows_i * cols_i > usize::MAX) by (nonlinear_arith)
                    requires
                        rows_i >= 2,
                        cols_i >= 1,
                        rows_i > usize::MAX || cols_i > usize::MAX,
                ;
            }
        }
        let route: bool = match rc_opt {
            Option::None => true,
            Option::Some(rc) => self.element_limit > 0 && self.element_limit < rc,
        };
        if route {
            return simple_match_chars(&self.score_config, &cs, &ps, case_sensitive, with_pos);
        }
        let rows = match rows_opt {
            Option::Some(rw) => rw,
            Option::None => 0,
        };
        let cols = match cols_opt {
            Option::Some(cl) => cl,
            Option::None => 0,
        };

        let mbuf = scratch_take(&self.m_cache);
        let pbuf = scratch_take(&self.p_cache);
        let mut m = ScoreMatrix::new(mbuf, rows, cols);
        let mut p = ScoreMatrix::new(pbuf, rows, cols);
        build_score_matrix(&self.score_config, &mut m, &mut p, &cs, &ps, compressed,
            case_sensitive);

        let last_phys = adjust_row_idx(np, compressed);
        let first_score = m.get_score(last_phys, 0);
        proof {
            assert(m_cell_ok(m, cfg_v, csv, psv, case_sensitive, phys_row(np as int, compressed),
                0, np as int, 0));
        }
        let mut best_score: i32 = first_score;
        let mut best_col: usize = 0;
        let mut j: usize = 1;
        while j < cols
            invariant
                1 <= j <= cols,
                best_col < j,
                best_score as int == best_score_upto(cfg_v, csv, psv, case_sensitive,
                    j as int - 1).0,
                best_col as int == best_score_upto(cfg_v, csv, psv, case_sensitive,
                    j as int - 1).1,
            decreases cols - j,
        {
            let sc = m.get_score(last_phys, j);
            proof {
                assert(m_cell_ok(m, cfg_v, csv, psv, case_sensitive, phys_row(np as int,
                    compressed), j as int, np as int, j as int));
            }
            if sc >= best_score {
                best_score = sc;
                best_col = j;
            }
            j = j + 1;
        }

        let mut positions: Vec<usize> = Vec::new();
        if with_pos {
            let ghost tb_full = traceback_rev(cfg_v, csv, psv, case_sensitive, np as int,
                best_col as int, true);
            let mut ti: usize = np;
            let mut tj: usize = best_col;
            let mut at_m: bool = true;
            while ti > 0 && tj > 0
                invariant
                    with_pos,
                    ti <= np,
                    tj < cols,
                    positions@.map_values(|x: usize| x as int) + traceback_rev(cfg_v, csv, psv,
                        case_sensitive, ti as int, tj as int, at_m) == tb_full,
                decreases tj,
            {
                let ghost pos_old = positions@;
                let ghost ti_old = ti as int;
                let ghost tj_old = tj as int;
                let ghost at_m_old = at_m;
                if at_m {
                    positions.push(tj - 1);
                }
                let mv = if at_m {
                    proof {
                        assert(m_cell_ok(m, cfg_v, csv, psv, case_sensitive, ti as int, tj as int,
                            ti as int, tj as int));
                    }
                    m.get_movement(ti, tj)
                } else {
                    proof {
                        assert(p_cell_ok(p, cfg_v, csv, psv, case_sensitive, ti as int, tj as int,
                            ti as int, tj as int));
                    }
                    p.get_movement(ti, tj)
                };
                if at_m {
                    ti = ti - 1;
                }
                tj = tj - 1;
                at_m = mv == Movement::Match;
                proof {
                    if at_m_old {
                        assert(positions@.map_values(|x: usize| x as int) =~= pos_old.map_values(
                            |x: usize| x as int,
                        ) + seq![tj_old - 1]);
                    }
                    assert(traceback_rev(cfg_v, csv, psv, case_sensitive, ti_old, tj_old,
                        at_m_old) == (if at_m_old {
                        seq![tj_old - 1]
                    } else {
                        Seq::<int>::empty()
                    }) + traceback_rev(cfg_v, csv, psv, case_sensitive, ti as int, tj as int,
                        at_m));
                    assert(positions@.map_values(|x: usize| x as int) + traceback_rev(cfg_v, csv,
                        psv, case_sensitive, ti as int, tj as int, at_m) =~= tb_full);
                }
            }
            proof {
                assert(traceback_rev(cfg_v, csv, psv, case_sensitive, ti as int, tj as int, at_m)
                    =~= Seq::<int>::empty());
                assert(positions@.map_values(|x: usize| x as int) =~= tb_full);
            }
            let rev = reversed_vec(&positions);
            proof {
                assert(rev@.map_values(|x: usize| x as int) =~= tb_full.reverse());
            }
            positions = rev;
        }

        let mbuf2 = m.into_cells();
        let pbuf2 = p.into_cells();
        if self.use_cache {
            scratch_put(&self.m_cache, mbuf2);
            scratch_put(&self.p_cache, pbuf2);
        }
        proof {
            if !with_pos {
                assert(positions@.map_values(|x: usize| x as int) =~= Seq::<int>::empty());
            }
        }
        Option::Some((best_score as i64, positions))
    }

    /// The best score of an in-order match, or nothing.
    pub fn fuzzy_match(&self, choice: &str, pattern: &str) -> (r: Option<ScoreType>)
        ensures
            ({
                let s = v2_result_spec(
                    self.spec_score_config(),
                    self.spec_element_limit(),
                    choice@,
                    pattern@,
                    case_sensitive_spec(self.spec_case(), pattern@),
                    false,
                );
                &&& r is Some <==> s is Some
                &&& r is Some ==> r.unwrap() as int == s.unwrap().0
            }),
    {
        match self.fuzzy(choice, pattern, false) {
            Option::Some((score, _)) => Option::Some(score),
            Option::None => Option::None,
        }
    }

    /// The best score together with the matched character indices, or
    /// nothing.
    pub fn fuzzy_indices(&self, choice: &str, pattern: &str) -> (r: Option<
        (ScoreType, Vec<IndexType>)>)
        ensures
            result_matches(
                r,
                v2_result_spec(
                    self.spec_score_config(),
                    self.spec_element_limit(),
                    choice@,
                    pattern@,
                    case_sensitive_spec(self.spec_case(), pattern@),
                    true,
                ),
            ),
    {
        self.fuzzy(choice, pattern, true)
    }
}

impl Default for SkimMatcherV2 {
    /// The default matcher: default scoring, no element limit, smart case,
    /// scratch retained between calls.
    fn default() -> (r: Self)
        ensures
            r.spec_score_config() == default_score_config(),
            r.spec_element_limit() == 0,
            r.spec_case() == CaseMatching::Smart,
            r.spec_use_cache() == true,
    {
        SkimMatcherV2 {
            score_config: SkimScoreConfig::default(),
            element_limit: 0,
            case: CaseMatching::Smart,
            use_cache: true,
            m_cache: scratch_new(),
            p_cache: scratch_new(),
        }
    }
}

} // verus!

verus! {

/// Law: the matched score does not depend on whether positions are
/// requested. As long as the full matrices fit under the element limit (and
/// in addressable memory), row compression changes only the matrices'
/// storage, never the score.
pub proof fn lemma_row_compression_equivalence(
    cfg: SkimScoreConfig,
    limit: int,
    cs: Seq<char>,
    ps: Seq<char>,
    case_sensitive: bool,
)
    requires
        (ps.len() + 1) * (cs.len() + 1) <= usize::MAX,
        limit == 0 || limit >= (ps.len() + 1) * (cs.len() + 1),
    ensures
        ({
            let with = v2_result_spec(cfg, limit, cs, ps, case_sensitive, true);
            let without = v2_result_spec(cfg, limit, cs, ps, case_sensitive, false);
            &&& with is Some <==> without is Some
            &&& with is Some ==> with.unwrap().0 == without.unwrap().0
        }),
{
    if ps.len() > 0 {
        assert(2 * (cs.len() + 1) <= (ps.len() + 1) * (cs.len() + 1)) by (nonlinear_arith)
            requires
                ps.len() >= 1,
        ;
    }
}

/// Law: the simple fallback finds a match exactly when the cheap prefilter
/// accepts, whatever the case rule and whether positions are requested.
pub proof fn lemma_simple_match_scoreability(
    cfg: SkimScoreConfig,
    cs: Seq<char>,
    ps: Seq<char>,
    case_sensitive: bool,
    with_pos: bool,
)
    ensures
        simple_match_spec(cfg, cs, ps, case_sensitive, with_pos) is Some
            <==> crate::chars::cheap_matches_spec(cs, ps, case_sensitive),
{
    lemma_greedy_indices(cs, ps, case_sensitive, 0, 0);
}

/// Law: the smart case policy behaves as the respecting policy when the
/// pattern holds an ASCII upper-case letter, and as the ignoring policy
/// otherwise.
pub proof fn lemma_smart_case(
    cfg: SkimScoreConfig,
    limit: int,
    cs: Seq<char>,
    ps: Seq<char>,
    with_pos: bool,
)
    ensures
        crate::chars::contains_upper_spec(ps) ==> v2_result_spec(cfg, limit, cs, ps,
            case_sensitive_spec(CaseMatching::Smart, ps), with_pos) == v2_result_spec(cfg, limit,
            cs, ps, case_sensitive_spec(CaseMatching::Respect, ps), with_pos),
        !crate::chars::contains_upper_spec(ps) ==> v2_result_spec(cfg, limit, cs, ps,
            case_sensitive_spec(CaseMatching::Smart, ps), with_pos) == v2_result_spec(cfg, limit,
            cs, ps, case_sensitive_spec(CaseMatching::Ignore, ps), with_pos),
{
}

} // verus!
