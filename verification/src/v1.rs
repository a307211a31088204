//! The single-pass sparse dynamic-programming matcher.
//!
//! For each pattern character a sparse row of candidate choice positions is
//! collected (always under ASCII case folding); a second pass propagates
//! best-predecessor scores with an adjacency bonus and an unmatched-gap
//! penalty, and a traceback over recorded back-references recovers indices.
use vstd::prelude::*;

use crate::IndexType;
use crate::ScoreType;
use crate::chars::CharType;
use crate::chars::char_role_of_types;
use crate::chars::char_type_of;
use crate::chars::CharRole;
use crate::chars::fold_char_code;
use crate::chars::fold_eq;
use crate::chars::is_ascii_upper;
use crate::v2::clip64;
use crate::v2::max_int;
use crate::v2::prev_char_at;

verus! {

/// One candidate cell of the sparse grid.
#[derive(Clone, Copy, Debug)]
pub(crate) struct MatchingStatus {
    pub idx: IndexType,
    pub score: ScoreType,
    pub final_score: ScoreType,
    pub adj_num: IndexType,
    pub back_ref: IndexType,
}

/// The mathematical shadow of a cell.
pub struct StatusModel {
    pub idx: int,
    pub score: int,
    pub final_score: int,
    pub adj_num: int,
    pub back_ref: int,
}

/// The zero cell standing in for a missing left neighbor; `adj_num == 1`
/// means "not adjacent", so no adjacency cancellation applies to it.
pub open spec fn default_model() -> StatusModel {
    StatusModel { idx: 0, score: 0, final_score: 0, adj_num: 1, back_ref: 0 }
}

/// An executable cell agrees with its model.
pub(crate) open spec fn st_matches(e: MatchingStatus, g: StatusModel) -> bool {
    e.idx as int == g.idx && e.score as int == g.score && e.final_score as int == g.final_score
        && e.adj_num as int == g.adj_num && e.back_ref as int == g.back_ref
}

/// The leading-gap penalty of a first-row cell: −6 per leading character,
/// capped at −18.
pub open spec fn leading_penalty(idx: int) -> int {
    max_int(idx * -6, -18)
}

/// The base score of matching choice position `cidx` (character `c`, after
/// `cprev`) with pattern character `pch` at pattern position `pidx`.
pub open spec fn fuzzy_score_spec(c: char, cidx: int, cprev: char, pch: char, pidx: int) -> int {
    let role = char_role_of_types(char_type_of(cprev), char_type_of(c));
    let ptype = char_type_of(cprev);
    4 + (if pch == c {
        if is_ascii_upper(pch) {
            6
        } else {
            4
        }
    } else {
        -1
    }) + (if role == CharRole::Head || role == CharRole::Break || role == CharRole::Camel {
        8int
    } else {
        0int
    }) + (if ptype == CharType::HardSep || ptype == CharType::SoftSep {
        8int
    } else {
        0int
    }) + (if pidx == 0 {
        leading_penalty(cidx)
    } else {
        0
    })
}

/// Choice positions at or after `from` whose character folds to the same
/// code as `pch`, in increasing order.
pub open spec fn candidates(cs: Seq<char>, pch: char, from: int) -> Seq<int>
    decreases cs.len() - from when 0 <= from <= cs.len()
{
    if from >= cs.len() {
        Seq::empty()
    } else if fold_eq(cs[from], pch) {
        seq![from] + candidates(cs, pch, from + 1)
    } else {
        candidates(cs, pch, from + 1)
    }
}

/// The first choice position row `i` may use: one past the previous row's
/// leftmost candidate, so the final pick is monotonic.
pub open spec fn row_start(cs: Seq<char>, ps: Seq<char>, i: int) -> int
    decreases i,
{
    if i <= 0 {
        0
    } else {
        let prev = candidates(cs, ps[i - 1], row_start(cs, ps, i - 1));
        if prev.len() == 0 {
            cs.len() as int
        } else {
            prev[0] + 1
        }
    }
}

/// Row `i` of the sparse grid before propagation: each candidate with its
/// base score.
pub open spec fn v1_row_base(cs: Seq<char>, ps: Seq<char>, i: int) -> Seq<StatusModel> {
    candidates(cs, ps[i], row_start(cs, ps, i)).map_values(
        |idx: int|
            StatusModel {
                idx,
                score: fuzzy_score_spec(cs[idx], idx, prev_char_at(cs, idx), ps[i], i),
                final_score: fuzzy_score_spec(cs[idx], idx, prev_char_at(cs, idx), ps[i], i),
                adj_num: 1,
                back_ref: 0,
            },
    )
}

/// A nonempty pattern matches exactly when every row keeps at least one
/// candidate.
pub open spec fn v1_ok(cs: Seq<char>, ps: Seq<char>) -> bool {
    forall|i: int| 0 <= i < ps.len() ==> #[trigger] v1_row_base(cs, ps, i).len() > 0
}

/// The best cross-row predecessor among previous-row entries `r..` with
/// `lo <= idx < hi`: its column, the resulting score, and the gap width.
/// On equal scores the later entry wins.
pub open spec fn best_cross(
    prev: Seq<StatusModel>,
    lo: int,
    hi: int,
    next_score: int,
    next_idx: int,
    r: int,
) -> Option<(int, int, int)>
    decreases prev.len() - r when 0 <= r <= prev.len()
{
    if r >= prev.len() || prev[r].idx >= hi {
        Option::None
    } else {
        let rest = best_cross(prev, lo, hi, next_score, next_idx, r + 1);
        if prev[r].idx < lo {
            rest
        } else {
            let adj = next_idx - prev[r].idx - 1;
            let fs = prev[r].final_score + next_score + (if adj == 0 {
                10
            } else {
                -2 * adj
            });
            match rest {
                Option::None => Option::Some((r, fs, adj)),
                Option::Some((br2, fs2, adj2)) => if fs2 >= fs {
                    rest
                } else {
                    Option::Some((r, fs, adj))
                },
            }
        }
    }
}

/// The later-preferring merge of two cross-row scan results.
pub open spec fn combine(
    cur: Option<(int, int, int)>,
    rest: Option<(int, int, int)>,
) -> Option<(int, int, int)> {
    match rest {
        Option::None => cur,
        Option::Some((br2, fs2, adj2)) => match cur {
            Option::None => rest,
            Option::Some((br, fs, adj)) => if fs2 >= fs {
                rest
            } else {
                cur
            },
        },
    }
}

/// The propagated value of cell `k`, given the previous row, the base row,
/// and the already-propagated prefix `done` of this row. The stay-in-row
/// option replaces the left neighbor's own base score and charges the gap;
/// when it wins, the neighbor's back-reference is carried so the traceback
/// skips the neighbor.
pub open spec fn dp_cell(
    prev: Seq<StatusModel>,
    base: Seq<StatusModel>,
    done: Seq<StatusModel>,
    k: int,
) -> StatusModel {
    let next = base[k];
    let left = if k > 0 {
        done[k - 1]
    } else {
        default_model()
    };
    let sbi = left.final_score - left.score + next.score + (-2) * (next.idx - left.idx) - (
    if left.adj_num == 0 {
        10int
    } else {
        0int
    });
    match best_cross(prev, left.idx, next.idx, next.score, next.idx, 0) {
        Option::None => StatusModel {
            idx: next.idx,
            score: next.score,
            final_score: clip64(sbi),
            adj_num: left.adj_num,
            back_ref: left.back_ref,
        },
        Option::Some((br, fs, adj)) => if k > 0 && fs < sbi {
            StatusModel {
                idx: next.idx,
                score: next.score,
                final_score: clip64(sbi),
                adj_num: adj,
                back_ref: left.back_ref,
            }
        } else {
            StatusModel {
                idx: next.idx,
                score: next.score,
                final_score: clip64(fs),
                adj_num: adj,
                back_ref: br,
            }
        },
    }
}

/// The first `k` propagated cells of a row.
pub open spec fn dp_prefix(prev: Seq<StatusModel>, base: Seq<StatusModel>, k: int) -> Seq<
    StatusModel>
    decreases k,
{
    if k <= 0 {
        Seq::empty()
    } else {
        let d = dp_prefix(prev, base, k - 1);
        d + seq![dp_cell(prev, base, d, k - 1)]
    }
}

/// Row `i` after propagation: row 0 keeps its base scores.
pub open spec fn v1_final_row(cs: Seq<char>, ps: Seq<char>, i: int) -> Seq<StatusModel>
    decreases i,
{
    if i <= 0 {
        v1_row_base(cs, ps, 0)
    } else {
        dp_prefix(
            v1_final_row(cs, ps, i - 1),
            v1_row_base(cs, ps, i),
            v1_row_base(cs, ps, i).len() as int,
        )
    }
}

/// Best propagated score over columns `0..=j` of a row, with its column;
/// later columns win ties.
pub open spec fn v1_best_upto(row: Seq<StatusModel>, j: int) -> (int, int)
    decreases j,
{
    if j <= 0 {
        (row[0].final_score, 0)
    } else {
        let prev = v1_best_upto(row, j - 1);
        if row[j].final_score >= prev.0 {
            (row[j].final_score, j)
        } else {
            prev
        }
    }
}

/// The matched score: the best propagated value of the last row.
pub open spec fn v1_score_spec(cs: Seq<char>, ps: Seq<char>) -> int {
    let row = v1_final_row(cs, ps, ps.len() as int - 1);
    v1_best_upto(row, row.len() - 1).0
}

/// Choice indices picked by the traceback from column `col` of row `i`,
/// newest first: each row contributes its cell's index, then the walk
/// follows the recorded back-reference.
pub open spec fn v1_picked(cs: Seq<char>, ps: Seq<char>, i: int, col: int) -> Seq<int>
    decreases i + 1 when i >= -1
{
    if i < 0 {
        Seq::empty()
    } else {
        let row = v1_final_row(cs, ps, i);
        seq![row[col].idx] + v1_picked(cs, ps, i - 1, row[col].back_ref)
    }
}

/// The indices of the best match, oldest first.
pub open spec fn v1_indices_spec(cs: Seq<char>, ps: Seq<char>) -> Seq<int> {
    let row = v1_final_row(cs, ps, ps.len() as int - 1);
    v1_picked(cs, ps, ps.len() as int - 1, v1_best_upto(row, row.len() - 1).1).reverse()
}

} // verus!

verus! {

use crate::chars::chars_of;
use crate::v2::clip64_exec;
use crate::v2::reversed_vec;

/// Executable rows agree with their models, cell by cell.
pub(crate) open spec fn row_matches(ev: Seq<MatchingStatus>, gv: Seq<StatusModel>) -> bool {
    ev.len() == gv.len() && forall|t: int| 0 <= t < ev.len() ==> st_matches(#[trigger] ev[t], gv[t])
}

/// The executable mirror of a cross-row scan result.
pub open spec fn best_model(b: Option<(usize, i128, usize)>) -> Option<(int, int, int)> {
    match b {
        Option::None => Option::None,
        Option::Some((br, fs, adj)) => Option::Some((br as int, fs as int, adj as int)),
    }
}

/// Candidates lie in `[from, |cs|)`, are strictly increasing, and fold to
/// the pattern character.
pub proof fn lemma_candidates(cs: Seq<char>, pch: char, from: int)
    requires
        0 <= from <= cs.len(),
    ensures
        forall|k: int|
            0 <= k < candidates(cs, pch, from).len() ==> from <= #[trigger] candidates(cs, pch,
                from)[k] < cs.len(),
        forall|k: int|
            0 <= k < candidates(cs, pch, from).len() - 1 ==> #[trigger] candidates(cs, pch,
                from)[k] < candidates(cs, pch, from)[k + 1],
        forall|k: int|
            0 <= k < candidates(cs, pch, from).len() ==> fold_eq(
                cs[#[trigger] candidates(cs, pch, from)[k]],
                pch,
            ),
    decreases cs.len() - from,
{
    if from >= cs.len() {
    } else {
        lemma_candidates(cs, pch, from + 1);
        let c = candidates(cs, pch, from);
        let rest = candidates(cs, pch, from + 1);
        if fold_eq(cs[from], pch) {
            assert(c == seq![from] + rest);
            assert forall|k: int| 0 <= k < c.len() implies from <= #[trigger] c[k] < cs.len() by {
                if k > 0 {
                    assert(c[k] == rest[k - 1]);
                }
            }
            assert forall|k: int| 0 <= k < c.len() - 1 implies #[trigger] c[k] < c[k + 1] by {
                if k == 0 {
                    assert(c[1] == rest[0]);
                } else {
                    assert(c[k] == rest[k - 1]);
                    assert(c[k + 1] == rest[k]);
                }
            }
            assert forall|k: int| 0 <= k < c.len() implies fold_eq(cs[#[trigger] c[k]], pch) by {
                if k > 0 {
                    assert(c[k] == rest[k - 1]);
                }
            }
        }
    }
}

/// A winning cross-row predecessor is a real column of the previous row.
pub proof fn lemma_best_cross_range(
    prev: Seq<StatusModel>,
    lo: int,
    hi: int,
    ns: int,
    ni: int,
    r: int,
)
    requires
        0 <= r <= prev.len(),
    ensures
        best_cross(prev, lo, hi, ns, ni, r) is Some ==> r <= best_cross(prev, lo, hi, ns, ni,
            r).unwrap().0 < prev.len(),
        best_cross(prev, lo, hi, ns, ni, r) is Some ==> prev[best_cross(prev, lo, hi, ns, ni,
            r).unwrap().0].idx < hi,
    decreases prev.len() - r,
{
    if r >= prev.len() || prev[r].idx >= hi {
    } else {
        lemma_best_cross_range(prev, lo, hi, ns, ni, r + 1);
    }
}

/// The later-preferring merge is associative.
pub proof fn lemma_combine_assoc(
    a: Option<(int, int, int)>,
    b: Option<(int, int, int)>,
    c: Option<(int, int, int)>,
)
    ensures
        combine(a, combine(b, c)) == combine(combine(a, b), c),
{
}

/// A propagated prefix has one cell per base cell, keeps the base indices,
/// and its back-references land inside the previous row.
pub proof fn lemma_dp_prefix_props(prev: Seq<StatusModel>, base: Seq<StatusModel>, k: int)
    requires
        prev.len() >= 1,
        0 <= k <= base.len(),
    ensures
        dp_prefix(prev, base, k).len() == k,
        forall|t: int|
            0 <= t < k ==> 0 <= #[trigger] dp_prefix(prev, base, k)[t].back_ref < prev.len()
                && dp_prefix(prev, base, k)[t].idx == base[t].idx,
    decreases k,
{
    if k <= 0 {
    } else {
        lemma_dp_prefix_props(prev, base, k - 1);
        let d = dp_prefix(prev, base, k - 1);
        lemma_best_cross_range(prev, (if k - 1 > 0 {
            d[k - 2]
        } else {
            default_model()
        }).idx, base[k - 1].idx, base[k - 1].score, base[k - 1].idx, 0);
        assert forall|t: int| 0 <= t < k implies 0 <= #[trigger] dp_prefix(prev, base,
            k)[t].back_ref < prev.len() && dp_prefix(prev, base, k)[t].idx == base[t].idx by {
            if t < k - 1 {
                assert(dp_prefix(prev, base, k)[t] == d[t]);
            }
        }
    }
}

/// Every propagated row is as long as its base row, and (beyond the first
/// row) its back-references land inside the row before it.
pub proof fn lemma_v1_row_wf(cs: Seq<char>, ps: Seq<char>, i: int)
    requires
        v1_ok(cs, ps),
        0 <= i < ps.len(),
    ensures
        v1_final_row(cs, ps, i).len() == v1_row_base(cs, ps, i).len(),
        v1_final_row(cs, ps, i).len() >= 1,
        i >= 1 ==> forall|t: int|
            0 <= t < v1_final_row(cs, ps, i).len() ==> 0 <= #[trigger] v1_final_row(cs, ps,
                i)[t].back_ref < v1_final_row(cs, ps, i - 1).len(),
    decreases i,
{
    if i <= 0 {
    } else {
        lemma_v1_row_wf(cs, ps, i - 1);
        lemma_dp_prefix_props(
            v1_final_row(cs, ps, i - 1),
            v1_row_base(cs, ps, i),
            v1_row_base(cs, ps, i).len() as int,
        );
    }
}

/// The base score of one candidate cell.
fn fuzzy_score(
    choice_ch: char,
    choice_idx: usize,
    choice_prev_ch: char,
    pat_ch: char,
    pat_idx: usize,
    _pat_prev_ch: char,
) -> (r: ScoreType)
    ensures
        r as int == fuzzy_score_spec(choice_ch, choice_idx as int, choice_prev_ch, pat_ch,
            pat_idx as int),
{
    let mut score: i64 = 4;
    let choice_prev_ch_type = CharType::of(choice_prev_ch);
    let choice_role = CharRole::of(choice_prev_ch, choice_ch);
    if pat_ch == choice_ch {
        let u = pat_ch as u32;
        if 65 <= u && u <= 90 {
            score = score + 6;
        } else {
            score = score + 4;
        }
    } else {
        score = score - 1;
    }
    if choice_role == CharRole::Head || choice_role == CharRole::Break || choice_role
        == CharRole::Camel {
        score = score + 8;
    }
    if choice_prev_ch_type == CharType::HardSep || choice_prev_ch_type == CharType::SoftSep {
        score = score + 8;
    }
    if pat_idx == 0 {
        if choice_idx >= 3 {
            score = score - 18;
        } else {
            score = score - 6 * (choice_idx as i64);
        }
    }
    score
}

/// Build the sparse grid: collect candidate rows, then propagate the best
/// predecessor score into every cell. `None` when some pattern character
/// has no candidate.
#[verifier::rlimit(100)]
#[verifier::spinoff_prover]
#[verifier::loop_isolation(false)]
fn build_graph(cs: &Vec<char>, ps: &Vec<char>) -> (r: Option<Vec<Vec<MatchingStatus>>>)
    requires
        ps@.len() >= 1,
    ensures
        r is Some <==> v1_ok(cs@, ps@),
        r is Some ==> ({
            let rows = r.unwrap()@;
            &&& rows.len() == ps@.len()
            &&& forall|i: int|
                0 <= i < rows.len() ==> row_matches(#[trigger] rows[i]@, v1_final_row(cs@, ps@, i))
        }),
{
    let ghost csv = cs@;
    let ghost psv = ps@;
    let np = ps.len();
    let nc = cs.len();

    let mut scores: Vec<Vec<MatchingStatus>> = Vec::new();
    let mut match_start_idx: usize = 0;
    let mut i: usize = 0;
    while i < np
        invariant
            i <= np,
            scores@.len() == i,
            match_start_idx as int == row_start(csv, psv, i as int),
            match_start_idx <= nc,
            forall|t: int| 0 <= t < i ==> #[trigger] v1_row_base(csv, psv, t).len() > 0,
            forall|t: int|
                0 <= t < i ==> row_matches(#[trigger] scores@[t]@, v1_row_base(csv, psv, t)),
        decreases np - i,
    {
        let pat_ch = ps[i];
        let mut row: Vec<MatchingStatus> = Vec::new();
        let ghost mut cand_pre: Seq<int> = Seq::empty();
        let mut j: usize = match_start_idx;
        while j < nc
            invariant
                match_start_idx <= j <= nc,
                i < np,
                candidates(csv, psv[i as int], match_start_idx as int) == cand_pre + candidates(
                    csv,
                    psv[i as int],
                    j as int,
                ),
                row@.len() == cand_pre.len(),
                forall|t: int|
                    0 <= t < row@.len() ==> st_matches(
                        #[trigger] row@[t],
                        StatusModel {
                            idx: cand_pre[t],
                            score: fuzzy_score_spec(csv[cand_pre[t]], cand_pre[t], prev_char_at(
                                csv, cand_pre[t]), psv[i as int], i as int),
                            final_score: fuzzy_score_spec(csv[cand_pre[t]], cand_pre[t],
                                prev_char_at(csv, cand_pre[t]), psv[i as int], i as int),
                            adj_num: 1,
                            back_ref: 0,
                        },
                    ),
            decreases nc - j,
        {
            let ch = cs[j];
            if fold_char_code(ch) == fold_char_code(pat_ch) {
                let prev_ch: char = if j == 0 {
                    '\0'
                } else {
                    cs[j - 1]
                };
                let sc = fuzzy_score(ch, j, prev_ch, pat_ch, i, '\0');
                row.push(
                    MatchingStatus {
                        idx: j,
                        score: sc,
                        final_score: sc,
                        adj_num: 1,
                        back_ref: 0,
                    },
                );
                proof {
                    let tail = candidates(csv, psv[i as int], j as int + 1);
                    assert(cand_pre + (seq![j as int] + tail) =~= (cand_pre + seq![j as int])
                        + tail);
                    cand_pre = cand_pre + seq![j as int];
                }
            }
            j = j + 1;
        }
        proof {
            assert(candidates(csv, psv[i as int], nc as int) =~= Seq::<int>::empty());
            assert(cand_pre + Seq::<int>::empty() =~= cand_pre);
            assert(candidates(csv, psv[i as int], match_start_idx as int) == cand_pre);
            assert(v1_row_base(csv, psv, i as int) =~= cand_pre.map_values(
                |idx: int|
                    StatusModel {
                        idx,
                        score: fuzzy_score_spec(csv[idx], idx, prev_char_at(csv, idx),
                            psv[i as int], i as int),
                        final_score: fuzzy_score_spec(csv[idx], idx, prev_char_at(csv, idx),
                            psv[i as int], i as int),
                        adj_num: 1,
                        back_ref: 0,
                    },
            ));
            assert(row_matches(row@, v1_row_base(csv, psv, i as int)));
        }
        if row.len() == 0 {
            proof {
                assert(v1_row_base(csv, psv, i as int).len() == 0);
                assert(!v1_ok(csv, psv));
            }
            return Option::None;
        }
        let first_idx = row[0].idx;
        proof {
            lemma_candidates(csv, psv[i as int], match_start_idx as int);
            assert(first_idx as int == cand_pre[0]);
            assert(first_idx < nc);
        }
        match_start_idx = first_idx + 1;
        scores.push(row);
        i = i + 1;
    }
    proof {
        assert(v1_ok(csv, psv));
    }

    // Propagation.
    let mut pat_idx: usize = 1;
    while pat_idx < np
        invariant
            1 <= pat_idx <= np,
            scores@.len() == np,
            forall|t: int| 0 <= t < np ==> #[trigger] v1_row_base(csv, psv, t).len() > 0,
            forall|t: int|
                0 <= t < pat_idx ==> row_matches(#[trigger] scores@[t]@, v1_final_row(csv, psv,
                    t)),
            forall|t: int|
                pat_idx <= t < np ==> row_matches(#[trigger] scores@[t]@, v1_row_base(csv, psv,
                    t)),
        decreases np - pat_idx,
    {
        let ghost prevm = v1_final_row(csv, psv, pat_idx as int - 1);
        let ghost basem = v1_row_base(csv, psv, pat_idx as int);
        let prev_len = scores[pat_idx - 1].len();
        let cur_len = scores[pat_idx].len();
        let mut new_row: Vec<MatchingStatus> = Vec::new();
        let mut k: usize = 0;
        while k < cur_len
            invariant
                k <= cur_len,
                cur_len == basem.len(),
                prev_len == prevm.len(),
                pat_idx < np,
                new_row@.len() == k,
                row_matches(new_row@, dp_prefix(prevm, basem, k as int)),
            decreases cur_len - k,
        {
            let next = scores[pat_idx][k];
            let left: MatchingStatus = if k > 0 {
                new_row[k - 1]
            } else {
                MatchingStatus { idx: 0, score: 0, final_score: 0, adj_num: 1, back_ref: 0 }
            };
            let ghost leftm = if k > 0 {
                dp_prefix(prevm, basem, k as int)[k as int - 1]
            } else {
                default_model()
            };
            proof {
                assert(st_matches(left, leftm));
                assert(st_matches(next, basem[k as int]));
            }
            let diff: i128 = (next.idx as i128) - (left.idx as i128);
            let sbi: i128 = (left.final_score as i128) - (left.score as i128) + (
            next.score as i128) + (-2) * diff - (if left.adj_num == 0 {
                10
            } else {
                0
            });

            let mut best: Option<(usize, i128, usize)> = Option::None;
            let mut r: usize = 0;
            let mut done = false;
            while r < prev_len && !done
                invariant
                    r <= prev_len,
                    prev_len == prevm.len(),
                    pat_idx < np,
                    !done ==> combine(
                        best_model(best),
                        best_cross(prevm, leftm.idx, basem[k as int].idx, basem[k as int].score,
                            basem[k as int].idx, r as int),
                    ) == best_cross(prevm, leftm.idx, basem[k as int].idx, basem[k as int].score,
                        basem[k as int].idx, 0),
                    done ==> best_model(best) == best_cross(prevm, leftm.idx,
                        basem[k as int].idx, basem[k as int].score, basem[k as int].idx, 0),
                    best is Some ==> best.unwrap().0 < prev_len,
                decreases prev_len - r, (if done { 0int } else { 1int }),
            {
                let c = scores[pat_idx - 1][r];
                proof {
                    assert(st_matches(c, prevm[r as int]));
                }
                if c.idx >= next.idx {
                    done = true;
                } else {
                    if c.idx >= left.idx {
                        let adj: usize = next.idx - c.idx - 1;
                        let fs: i128 = (c.final_score as i128) + (next.score as i128) + (
                        if adj == 0 {
                            10
                        } else {
                            (-2) * (adj as i128)
                        });
                        let cand: Option<(usize, i128, usize)> = Option::Some((r, fs, adj));
                        let take_new = match best {
                            Option::None => true,
                            Option::Some((_, bfs, _)) => fs >= bfs,
                        };
                        proof {
                            assert(best_cross(prevm, leftm.idx, basem[k as int].idx,
                                basem[k as int].score, basem[k as int].idx, r as int) == combine(
                                best_model(cand),
                                best_cross(prevm, leftm.idx, basem[k as int].idx,
                                    basem[k as int].score, basem[k as int].idx, r as int + 1),
                            ));
                            lemma_combine_assoc(
                                best_model(best),
                                best_model(cand),
                                best_cross(prevm, leftm.idx, basem[k as int].idx,
                                    basem[k as int].score, basem[k as int].idx, r as int + 1),
                            );
                            assert(combine(best_model(best), best_model(cand)) == best_model(
                                if take_new {
                                    cand
                                } else {
                                    best
                                },
                            ));
                        }
                        if take_new {
                            best = cand;
                        }
                    }
                    r = r + 1;
                }
            }
            proof {
                if !done {
                    assert(best_cross(prevm, leftm.idx, basem[k as int].idx,
                        basem[k as int].score, basem[k as int].idx, r as int) is None);
                }
                assert(best_model(best) == best_cross(prevm, leftm.idx, basem[k as int].idx,
                    basem[k as int].score, basem[k as int].idx, 0));
            }

            let cell: MatchingStatus = match best {
                Option::None => MatchingStatus {
                    idx: next.idx,
                    score: next.score,
                    final_score: clip64_exec(sbi),
                    adj_num: left.adj_num,
                    back_ref: left.back_ref,
                },
                Option::Some((br, fs, adj)) => {
                    if k > 0 && fs < sbi {
                        MatchingStatus {
                            idx: next.idx,
                            score: next.score,
                            final_score: clip64_exec(sbi),
                            adj_num: adj,
                            back_ref: left.back_ref,
                        }
                    } else {
                        MatchingStatus {
                            idx: next.idx,
                            score: next.score,
                            final_score: clip64_exec(fs),
                            adj_num: adj,
                            back_ref: br,
                        }
                    }
                },
            };
            new_row.push(cell);
            proof {
                assert(st_matches(cell, dp_cell(prevm, basem, dp_prefix(prevm, basem, k as int),
                    k as int)));
                assert(dp_prefix(prevm, basem, k as int + 1) =~= dp_prefix(prevm, basem,
                    k as int) + seq![dp_cell(prevm, basem, dp_prefix(prevm, basem, k as int),
                    k as int)]);
            }
            k = k + 1;
        }
        scores[pat_idx] = new_row;
        proof {
            assert(row_matches(scores@[pat_idx as int]@, v1_final_row(csv, psv, pat_idx as int)));
        }
        pat_idx = pat_idx + 1;
    }
    Option::Some(scores)
}

} // verus!

verus! {

/// The best score of an in-order, case-folded match of `pattern` inside
/// `choice`, or nothing when no such match exists. The empty pattern
/// matches everything with score 0.
#[verifier::rlimit(100)]
#[verifier::spinoff_prover]
#[verifier::loop_isolation(false)]
pub fn fuzzy_match(choice: &str, pattern: &str) -> (r: Option<ScoreType>)
    ensures
        r is Some <==> (pattern@.len() == 0 || v1_ok(choice@, pattern@)),
        pattern@.len() == 0 ==> r == Option::Some(0 as ScoreType),
        pattern@.len() > 0 && v1_ok(choice@, pattern@) ==> r.unwrap() as int == v1_score_spec(
            choice@,
            pattern@,
        ),
{
    let cs = chars_of(choice);
    let ps = chars_of(pattern);
    let ghost csv = cs@;
    let ghost psv = ps@;
    if ps.len() == 0 {
        return Option::Some(0);
    }
    match build_graph(&cs, &ps) {
        Option::None => Option::None,
        Option::Some(scores) => {
            let last = scores.len() - 1;
            let ghost lastm = v1_final_row(csv, psv, psv.len() as int - 1);
            proof {
                lemma_v1_row_wf(csv, psv, psv.len() as int - 1);
            }
            let row_len = scores[last].len();
            let mut best: i64 = scores[last][0].final_score;
            let mut best_col: usize = 0;
            proof {
                assert(st_matches(scores@[last as int]@[0], lastm[0]));
            }
            let mut j: usize = 1;
            while j < row_len
                invariant
                    1 <= j <= row_len,
                    best_col < j,
                    row_len == lastm.len(),
                    best as int == v1_best_upto(lastm, j as int - 1).0,
                    best_col as int == v1_best_upto(lastm, j as int - 1).1,
                decreases row_len - j,
            {
                let sc = scores[last][j];
                proof {
                    assert(st_matches(scores@[last as int]@[j as int], lastm[j as int]));
                }
                if sc.final_score >= best {
                    best = sc.final_score;
                    best_col = j;
                }
                j = j + 1;
            }
            Option::Some(best)
        },
    }
}

/// The best score together with the matched character indices: one strictly
/// increasing choice position per pattern character. The empty pattern
/// yields score 0 and no indices.
#[verifier::rlimit(100)]
#[verifier::spinoff_prover]
#[verifier::loop_isolation(false)]
pub fn fuzzy_indices(choice: &str, pattern: &str) -> (r: Option<(ScoreType, Vec<IndexType>)>)
    ensures
        r is Some <==> (pattern@.len() == 0 || v1_ok(choice@, pattern@)),
        pattern@.len() == 0 ==> r is Some && r.unwrap().0 == 0 && r.unwrap().1@.len() == 0,
        pattern@.len() > 0 && v1_ok(choice@, pattern@) ==> ({
            let (sc, ix) = r.unwrap();
            &&& sc as int == v1_score_spec(choice@, pattern@)
            &&& ix@.map_values(|x: usize| x as int) == v1_indices_spec(choice@, pattern@)
        }),
{
    let cs = chars_of(choice);
    let ps = chars_of(pattern);
    let ghost csv = cs@;
    let ghost psv = ps@;
    if ps.len() == 0 {
        let empty_ix: Vec<usize> = Vec::new();
        return Option::Some((0, empty_ix));
    }
    match build_graph(&cs, &ps) {
        Option::None => Option::None,
        Option::Some(scores) => {
            let np = scores.len();
            let last = np - 1;
            let ghost lastm = v1_final_row(csv, psv, psv.len() as int - 1);
            proof {
                lemma_v1_row_wf(csv, psv, psv.len() as int - 1);
                assert forall|t: int| 0 <= t < psv.len() implies #[trigger] v1_final_row(csv,
                    psv, t).len() == v1_row_base(csv, psv, t).len() && v1_final_row(csv, psv,
                    t).len() >= 1 && (t >= 1 ==> forall|u: int|
                    0 <= u < v1_final_row(csv, psv, t).len() ==> 0 <= #[trigger] v1_final_row(
                        csv, psv, t)[u].back_ref < v1_final_row(csv, psv, t - 1).len()) by {
                    lemma_v1_row_wf(csv, psv, t);
                }
            }
            let row_len = scores[last].len();
            let mut best: i64 = scores[last][0].final_score;
            let mut best_col: usize = 0;
            proof {
                assert(st_matches(scores@[last as int]@[0], lastm[0]));
            }
            let mut j: usize = 1;
            while j < row_len
                invariant
                    1 <= j <= row_len,
                    best_col < j,
                    row_len == lastm.len(),
                    best as int == v1_best_upto(lastm, j as int - 1).0,
                    best_col as int == v1_best_upto(lastm, j as int - 1).1,
                decreases row_len - j,
            {
                let sc = scores[last][j];
                proof {
                    assert(st_matches(scores@[last as int]@[j as int], lastm[j as int]));
                }
                if sc.final_score >= best {
                    best = sc.final_score;
                    best_col = j;
                }
                j = j + 1;
            }

            let ghost full = v1_picked(csv, psv, psv.len() as int - 1, best_col as int);
            let mut picked: Vec<usize> = Vec::new();
            let mut next_col: usize = best_col;
            let mut rows_left: usize = np;
            while rows_left > 0
                invariant
                    rows_left <= np,
                    np == psv.len(),
                    picked@.len() == np - rows_left,
                    rows_left > 0 ==> (next_col as int) < v1_final_row(csv, psv,
                        rows_left as int - 1).len(),
                    picked@.map_values(|x: usize| x as int) + v1_picked(csv, psv,
                        rows_left as int - 1, next_col as int) == full,
                decreases rows_left,
            {
                let row_i = rows_left - 1;
                let ghost rowm = v1_final_row(csv, psv, row_i as int);
                let status = scores[row_i][next_col];
                proof {
                    assert(st_matches(scores@[row_i as int]@[next_col as int],
                        rowm[next_col as int]));
                }
                let ghost pos_old = picked@;
                let ghost col_old = next_col as int;
                next_col = status.back_ref;
                picked.push(status.idx);
                rows_left = rows_left - 1;
                proof {
                    assert(picked@.map_values(|x: usize| x as int) =~= pos_old.map_values(
                        |x: usize| x as int,
                    ) + seq![rowm[col_old].idx]);
                    assert(v1_picked(csv, psv, row_i as int, col_old) == seq![rowm[col_old].idx]
                        + v1_picked(csv, psv, row_i as int - 1, rowm[col_old].back_ref));
                    assert(picked@.map_values(|x: usize| x as int) + v1_picked(csv, psv,
                        rows_left as int - 1, next_col as int) =~= full);
                }
            }
            proof {
                assert(v1_picked(csv, psv, rows_left as int - 1, next_col as int)
                    =~= Seq::<int>::empty());
                assert(picked@.map_values(|x: usize| x as int) =~= full);
            }
            let rev = reversed_vec(&picked);
            proof {
                assert(rev@.map_values(|x: usize| x as int) =~= full.reverse());
            }
            Option::Some((best, rev))
        },
    }
}

/// The sparse dynamic-programming matcher.
pub struct SkimMatcher {}

impl Default for SkimMatcher {
    fn default() -> (r: Self) {
        SkimMatcher {  }
    }
}

impl SkimMatcher {
    /// The best score of a match, or nothing.
    pub fn fuzzy_match(&self, choice: &str, pattern: &str) -> (r: Option<ScoreType>)
        ensures
            r is Some <==> (pattern@.len() == 0 || v1_ok(choice@, pattern@)),
            pattern@.len() == 0 ==> r == Option::Some(0 as ScoreType),
            pattern@.len() > 0 && v1_ok(choice@, pattern@) ==> r.unwrap() as int == v1_score_spec(
                choice@,
                pattern@,
            ),
    {
        fuzzy_match(choice, pattern)
    }

    /// The best score together with the matched character indices.
    pub fn fuzzy_indices(&self, choice: &str, pattern: &str) -> (r: Option<
        (ScoreType, Vec<IndexType>)>)
        ensures
            r is Some <==> (pattern@.len() == 0 || v1_ok(choice@, pattern@)),
            pattern@.len() == 0 ==> r is Some && r.unwrap().0 == 0 && r.unwrap().1@.len() == 0,
            pattern@.len() > 0 && v1_ok(choice@, pattern@) ==> ({
                let (sc, ix) = r.unwrap();
                &&& sc as int == v1_score_spec(choice@, pattern@)
                &&& ix@.map_values(|x: usize| x as int) == v1_indices_spec(choice@, pattern@)
            }),
    {
        fuzzy_indices(choice, pattern)
    }
}

} // verus!

verus! {

/// Law: the first-row leading penalty is never below −18; it is −6 per
/// leading character until that cap is reached at three characters.
pub proof fn lemma_leading_penalty_cap(idx: int)
    requires
        idx >= 0,
    ensures
        -18 <= leading_penalty(idx) <= 0,
        idx >= 3 ==> leading_penalty(idx) == -18,
        idx < 3 ==> leading_penalty(idx) == -6 * idx,
{
}

} // verus!

verus! {

use crate::chars::char_eq;
use crate::chars::cheap_matches_spec;
use crate::chars::subseq_match_from;

/// One step of the greedy scan, in candidate terms: the pattern character
/// at `pi` can be consumed from position `ci` on exactly when a candidate
/// exists there, and the scan then continues right after the first one.
proof fn lemma_subseq_step(cs: Seq<char>, ps: Seq<char>, ci: int, pi: int)
    requires
        0 <= ci <= cs.len(),
        0 <= pi < ps.len(),
    ensures
        subseq_match_from(cs, ps, false, ci, pi) <==> ({
            let c = candidates(cs, ps[pi], ci);
            c.len() > 0 && subseq_match_from(cs, ps, false, c[0] + 1, pi + 1)
        }),
    decreases cs.len() - ci,
{
    if ci >= cs.len() {
    } else if char_eq(cs[ci], ps[pi], false) {
        assert(candidates(cs, ps[pi], ci)[0] == ci);
        lemma_candidates(cs, ps[pi], ci);
    } else {
        lemma_subseq_step(cs, ps, ci + 1, pi);
        assert(candidates(cs, ps[pi], ci) == candidates(cs, ps[pi], ci + 1));
    }
}

/// From row `i` on, the greedy scan succeeds exactly when every remaining
/// row keeps a candidate.
proof fn lemma_rows_from(cs: Seq<char>, ps: Seq<char>, i: int)
    requires
        0 <= i <= ps.len(),
        0 <= row_start(cs, ps, i) <= cs.len(),
        forall|t: int| 0 <= t < i ==> #[trigger] v1_row_base(cs, ps, t).len() > 0,
    ensures
        subseq_match_from(cs, ps, false, row_start(cs, ps, i), i) <==> (forall|t: int|
            i <= t < ps.len() ==> #[trigger] v1_row_base(cs, ps, t).len() > 0),
    decreases ps.len() - i,
{
    if i >= ps.len() {
    } else {
        let c = candidates(cs, ps[i], row_start(cs, ps, i));
        lemma_subseq_step(cs, ps, row_start(cs, ps, i), i);
        assert(v1_row_base(cs, ps, i).len() == c.len());
        if c.len() == 0 {
            assert(v1_row_base(cs, ps, i).len() == 0);
        } else {
            lemma_candidates(cs, ps[i], row_start(cs, ps, i));
            assert(row_start(cs, ps, i + 1) == c[0] + 1);
            assert(0 <= c[0] + 1 <= cs.len());
            assert forall|t: int| 0 <= t < i + 1 implies #[trigger] v1_row_base(cs, ps,
                t).len() > 0 by {
                if t < i {
                } else {
                    assert(v1_row_base(cs, ps, i).len() == c.len());
                }
            }
            lemma_rows_from(cs, ps, i + 1);
            assert forall|t: int| i <= t < ps.len() && (forall|u: int|
                i + 1 <= u < ps.len() ==> #[trigger] v1_row_base(cs, ps, u).len() > 0) implies
                #[trigger] v1_row_base(cs, ps, t).len() > 0 by {
                if t > i {
                }
            }
        }
    }
}

/// Law: the sparse matcher finds a match exactly when the pattern is an
/// in-order, case-folded subsequence of the choice — the cheap prefilter's
/// criterion.
pub proof fn lemma_v1_matchability(cs: Seq<char>, ps: Seq<char>)
    requires
        ps.len() > 0,
    ensures
        v1_ok(cs, ps) <==> cheap_matches_spec(cs, ps, false),
{
    lemma_rows_from(cs, ps, 0);
}

} // verus!

verus! {

/// Every row start lies inside the choice.
proof fn lemma_row_start_bounds(cs: Seq<char>, ps: Seq<char>, i: int)
    requires
        0 <= i,
    ensures
        0 <= row_start(cs, ps, i) <= cs.len(),
    decreases i,
{
    if i <= 0 {
    } else {
        lemma_row_start_bounds(cs, ps, i - 1);
        lemma_candidates(cs, ps[i - 1], row_start(cs, ps, i - 1));
    }
}

/// Back-references of a propagated prefix point strictly left: the
/// previous-row cell a back-reference names sits at a smaller choice
/// position than the cell holding it.
proof fn lemma_dp_prefix_order(prev: Seq<StatusModel>, base: Seq<StatusModel>, k: int)
    requires
        prev.len() >= 1,
        0 <= k <= base.len(),
        forall|t: int| 0 <= t < base.len() - 1 ==> #[trigger] base[t].idx < base[t + 1].idx,
        base.len() > 0 ==> prev[0].idx < base[0].idx,
    ensures
        forall|t: int|
            0 <= t < k ==> prev[#[trigger] dp_prefix(prev, base, k)[t].back_ref].idx
                < dp_prefix(prev, base, k)[t].idx,
    decreases k,
{
    if k <= 0 {
    } else {
        lemma_dp_prefix_order(prev, base, k - 1);
        lemma_dp_prefix_props(prev, base, k - 1);
        lemma_dp_prefix_props(prev, base, k);
        let d = dp_prefix(prev, base, k - 1);
        let leftm = if k - 1 > 0 {
            d[k - 2]
        } else {
            default_model()
        };
        lemma_best_cross_range(prev, leftm.idx, base[k - 1].idx, base[k - 1].score,
            base[k - 1].idx, 0);
        assert forall|t: int| 0 <= t < k implies prev[#[trigger] dp_prefix(prev, base,
            k)[t].back_ref].idx < dp_prefix(prev, base, k)[t].idx by {
            if t < k - 1 {
                assert(dp_prefix(prev, base, k)[t] == d[t]);
            } else {
                if k - 1 > 0 {
                    assert(prev[leftm.back_ref].idx < leftm.idx);
                    assert(leftm.idx == base[k - 2].idx);
                    assert(base[k - 2].idx < base[k - 1].idx);
                }
            }
        }
    }
}

/// A propagated row keeps its candidates' positions in increasing order,
/// each folding to the row's pattern character, and (beyond the first row)
/// every back-reference names a strictly earlier previous-row position.
#[verifier::rlimit(100)]
#[verifier::spinoff_prover]
proof fn lemma_v1_row_order(cs: Seq<char>, ps: Seq<char>, i: int)
    requires
        v1_ok(cs, ps),
        0 <= i < ps.len(),
    ensures
        ({
            let row = v1_final_row(cs, ps, i);
            let cands = candidates(cs, ps[i], row_start(cs, ps, i));
            &&& row.len() == cands.len()
            &&& forall|t: int| 0 <= t < row.len() ==> #[trigger] row[t].idx == cands[t]
            &&& forall|t: int|
                0 <= t < row.len() - 1 ==> #[trigger] row[t].idx < row[t + 1].idx
            &&& forall|t: int|
                0 <= t < row.len() ==> 0 <= #[trigger] row[t].idx < cs.len() && fold_eq(
                    cs[row[t].idx],
                    ps[i],
                )
            &&& i >= 1 ==> forall|t: int|
                0 <= t < row.len() ==> v1_final_row(cs, ps, i - 1)[#[trigger] row[t].back_ref].idx
                    < row[t].idx
        }),
    decreases i,
{
    lemma_row_start_bounds(cs, ps, i);
    lemma_candidates(cs, ps[i], row_start(cs, ps, i));
    lemma_v1_row_wf(cs, ps, i);
    let cands = candidates(cs, ps[i], row_start(cs, ps, i));
    let base = v1_row_base(cs, ps, i);
    assert(base.len() == cands.len());
    assert(forall|t: int| 0 <= t < base.len() ==> #[trigger] base[t].idx == cands[t]);
    if i == 0 {
    } else {
        let prev = v1_final_row(cs, ps, i - 1);
        let pcands = candidates(cs, ps[i - 1], row_start(cs, ps, i - 1));
        lemma_v1_row_wf(cs, ps, i - 1);
        assert(prev.len() > 0);
        assert(v1_row_base(cs, ps, i - 1).len() > 0);
        if i - 1 > 0 {
            lemma_v1_row_wf(cs, ps, i - 2);
            let prev2 = v1_final_row(cs, ps, i - 2);
            let base1 = v1_row_base(cs, ps, i - 1);
            lemma_dp_prefix_props(prev2, base1, base1.len() as int);
            assert(prev == dp_prefix(prev2, base1, base1.len() as int));
            assert(0 <= dp_prefix(prev2, base1, base1.len() as int)[0].back_ref);
            assert(dp_prefix(prev2, base1, base1.len() as int)[0].idx == base1[0].idx);
            assert(prev[0].idx == v1_row_base(cs, ps, i - 1)[0].idx);
        }
        assert(v1_row_base(cs, ps, i - 1)[0].idx == pcands[0]);
        assert(prev[0].idx == pcands[0]);
        assert(row_start(cs, ps, i) == pcands[0] + 1);
        lemma_dp_prefix_props(prev, base, base.len() as int);
        assert forall|t: int| 0 <= t < base.len() - 1 implies #[trigger] base[t].idx < base[t
            + 1].idx by {
            assert(base[t].idx == cands[t]);
            assert(base[t + 1].idx == cands[t + 1]);
        }
        if base.len() > 0 {
            assert(base[0].idx == cands[0]);
            assert(cands[0] >= row_start(cs, ps, i));
            assert(prev[0].idx < base[0].idx);
        }
        lemma_dp_prefix_order(prev, base, base.len() as int);
        let rowm = v1_final_row(cs, ps, i);
        let n = base.len() as int;
        assert(rowm == dp_prefix(prev, base, n));
        assert forall|t: int| 0 <= t < rowm.len() implies #[trigger] rowm[t].idx == cands[t] by {
            assert(0 <= dp_prefix(prev, base, n)[t].back_ref);
            assert(dp_prefix(prev, base, n)[t].idx == base[t].idx);
        }
        assert forall|t: int| 0 <= t < rowm.len() - 1 implies #[trigger] rowm[t].idx < rowm[t
            + 1].idx by {
            assert(rowm[t].idx == cands[t]);
            assert(rowm[t + 1].idx == cands[t + 1]);
        }
        assert forall|t: int| 0 <= t < rowm.len() implies 0 <= #[trigger] rowm[t].idx < cs.len()
            && fold_eq(cs[rowm[t].idx], ps[i]) by {
            assert(rowm[t].idx == cands[t]);
        }
        assert forall|t: int| 0 <= t < rowm.len() implies prev[#[trigger] rowm[t].back_ref].idx
            < rowm[t].idx by {
            assert(prev[dp_prefix(prev, base, n)[t].back_ref].idx < dp_prefix(prev, base,
                n)[t].idx);
        }
    }
}

/// The traceback from a valid cell emits one strictly decreasing choice
/// position per row, each folding to that row's pattern character.
proof fn lemma_v1_picked_props(cs: Seq<char>, ps: Seq<char>, i: int, col: int)
    requires
        v1_ok(cs, ps),
        0 <= i < ps.len(),
        0 <= col < v1_final_row(cs, ps, i).len(),
    ensures
        ({
            let p = v1_picked(cs, ps, i, col);
            &&& p.len() == i + 1
            &&& p[0] == v1_final_row(cs, ps, i)[col].idx
            &&& forall|t: int| 0 <= t < i ==> #[trigger] p[t] > p[t + 1]
            &&& forall|t: int|
                0 <= t <= i ==> 0 <= #[trigger] p[t] < cs.len() && fold_eq(cs[p[t]], ps[i - t])
        }),
    decreases i,
{
    lemma_v1_row_order(cs, ps, i);
    let row = v1_final_row(cs, ps, i);
    let p = v1_picked(cs, ps, i, col);
    if i == 0 {
        assert(v1_picked(cs, ps, -1, row[col].back_ref) =~= Seq::<int>::empty());
    } else {
        lemma_v1_row_wf(cs, ps, i);
        let br = row[col].back_ref;
        assert(0 <= br < v1_final_row(cs, ps, i - 1).len());
        lemma_v1_picked_props(cs, ps, i - 1, br);
        let rest = v1_picked(cs, ps, i - 1, br);
        assert(p == seq![row[col].idx] + rest);
        assert(rest[0] == v1_final_row(cs, ps, i - 1)[br].idx);
        assert(v1_final_row(cs, ps, i - 1)[br].idx < row[col].idx);
        assert forall|t: int| 0 <= t < i implies #[trigger] p[t] > p[t + 1] by {
            if t == 0 {
                assert(p[1] == rest[0]);
            } else {
                assert(p[t] == rest[t - 1]);
                assert(p[t + 1] == rest[t]);
            }
        }
        assert forall|t: int| 0 <= t <= i implies 0 <= #[trigger] p[t] < cs.len() && fold_eq(
            cs[p[t]], ps[i - t]) by {
            if t > 0 {
                assert(p[t] == rest[t - 1]);
            }
        }
    }
}

/// The best column of a row prefix is one of its columns.
proof fn lemma_best_upto_range(row: Seq<StatusModel>, j: int)
    requires
        j >= 0,
    ensures
        0 <= v1_best_upto(row, j).1 <= j,
    decreases j,
{
    if j > 0 {
        lemma_best_upto_range(row, j - 1);
    }
}

/// Law: when the sparse matcher matches, it returns exactly one choice
/// index per pattern character, the indices strictly increase, and each
/// indexed choice character equals its pattern character under ASCII
/// folding.
pub proof fn lemma_v1_index_fidelity(cs: Seq<char>, ps: Seq<char>)
    requires
        ps.len() > 0,
        v1_ok(cs, ps),
    ensures
        ({
            let ix = v1_indices_spec(cs, ps);
            &&& ix.len() == ps.len()
            &&& forall|k: int| 0 <= k < ix.len() - 1 ==> #[trigger] ix[k] < ix[k + 1]
            &&& forall|k: int|
                0 <= k < ix.len() ==> 0 <= #[trigger] ix[k] < cs.len() && fold_eq(cs[ix[k]],
                    ps[k])
        }),
{
    let i = ps.len() as int - 1;
    let row = v1_final_row(cs, ps, i);
    lemma_v1_row_wf(cs, ps, i);
    lemma_best_upto_range(row, row.len() - 1);
    let col = v1_best_upto(row, row.len() - 1).1;
    lemma_v1_picked_props(cs, ps, i, col);
    let p = v1_picked(cs, ps, i, col);
    let ix = v1_indices_spec(cs, ps);
    assert(ix == p.reverse());
    assert forall|k: int| 0 <= k < ix.len() - 1 implies #[trigger] ix[k] < ix[k + 1] by {
        assert(ix[k] == p[p.len() - 1 - k]);
        assert(ix[k + 1] == p[p.len() - 1 - (k + 1)]);
        assert(p[p.len() - 2 - k] > p[p.len() - 1 - k]);
    }
    assert forall|k: int| 0 <= k < ix.len() implies 0 <= #[trigger] ix[k] < cs.len() && fold_eq(
        cs[ix[k]], ps[k]) by {
        assert(ix[k] == p[p.len() - 1 - k]);
        assert(fold_eq(cs[p[p.len() - 1 - k]], ps[i - (p.len() - 1 - k)]));
    }
}

} // verus!
