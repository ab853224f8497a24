//! Score-surface builders and traceback of local alignment.
use vstd::prelude::*;
use argminmax::ArgMinMax;
use crate::model::{
    cell, diag, gap_symbol, idx, lemma_cell_has_predecessor, takes_diagonal, takes_target_gap, trace,
    trace_stops, trace_rows, lemma_trace_counts_nonneg, lemma_cell_fits, lemma_idx_bound, lemma_idx_distinct, lemma_idx_monotone, max2, scores_fit, sub_score,
};
use crate::utils::index;

pub use crate::lowmem::find_alignment_simd_lowmem;
pub use crate::model::AlignmentScores;
pub use crate::wavefront::string_scores_simd;

verus! {

/// Relies on argminmax's `ArgMinMax::argmax` on an `i16` slice: it returns the
/// index of the first largest element, and panics on an empty slice.
#[verifier::external_body]
pub(crate) fn argmax(data: &[i16]) -> (r: usize)
    requires
        data@.len() > 0,
    ensures
        r < data@.len(),
        forall|i: int| 0 <= i < data@.len() ==> data@[i] <= data@[r as int],
        forall|i: int| 0 <= i < r ==> data@[i] < data@[r as int],
{
    data.argmax()
}

/// One application of the recurrence: the best of skipping a query symbol,
/// skipping a target symbol, taking both, and starting afresh at zero.
pub(crate) fn recurrence_step(skip_query: i16, skip_target: i16, take: i16, sub: i16, gap: i16) -> (r: i16)
    requires
        max2(
            max2(skip_query + gap, skip_target + gap),
            max2(take + sub, 0),
        ) <= i16::MAX,
    ensures
        r == max2(max2(skip_query + gap, skip_target + gap), max2(take + sub, 0)),
{
    let a = skip_query as i32 + gap as i32;
    let b = skip_target as i32 + gap as i32;
    let c = take as i32 + sub as i32;
    let ab = if a >= b { a } else { b };
    let c0 = if c >= 0 { c } else { 0 };
    let m = if ab >= c0 { ab } else { c0 };
    m as i16
}

fn substitution(a: char, b: char, scores: AlignmentScores) -> (r: i16)
    ensures
        r == sub_score(a, b, scores),
{
    if a == b {
        scores.match_score
    } else {
        scores.miss
    }
}

pub(crate) fn substitution_of(is_match: bool, scores: AlignmentScores) -> (r: i16)
    ensures
        r == if is_match { scores.match_score } else { scores.miss },
{
    if is_match {
        scores.match_score
    } else {
        scores.miss
    }
}

/// Fills the whole surface in row-major order: row `y` is target position `y`,
/// column `x` query position `x`.
pub fn string_scores_straight(query: &[char], target: &[char], scores: AlignmentScores) -> (data: Vec<i16>)
    requires
        (query@.len() + 1) * (target@.len() + 1) <= usize::MAX,
        scores_fit(query@.len() as int, target@.len() as int, scores),
    ensures
        data@.len() == (query@.len() + 1) * (target@.len() + 1),
        forall|x: int, j: int|
            0 <= x <= query@.len() && 0 <= j <= target@.len() ==> #[trigger] data@[idx(
                x,
                j,
                query@.len() + 1 as int,
            )] == cell(query@, target@, scores, x, j),
{
    proof {
        assert(query@.len() + 1 <= usize::MAX && target@.len() + 1 <= usize::MAX) by (nonlinear_arith)
            requires
                (query@.len() + 1) * (target@.len() + 1) <= usize::MAX,
        ;
    }
    let width = query.len() + 1;
    let height = target.len() + 1;
    let mut data: Vec<i16> = vec![0; width * height];
    let ghost q = query@;
    let ghost t = target@;
    proof {
        assert forall|x: int, j: int| 0 <= x < width && 0 <= j < height implies #[trigger] data@[idx(
            x,
            j,
            width as int,
        )] == if j < 1 {
            cell(q, t, scores, x, j)
        } else {
            0
        } by {
            lemma_idx_bound(x, j, width as int, height as int);
        }
    }
    let mut y: usize = 1;
    while y < height
        invariant
            1 <= y <= height,
            width == q.len() + 1,
            height == t.len() + 1,
            q == query@,
            t == target@,
            width * height <= usize::MAX,
            scores_fit(q.len() as int, t.len() as int, scores),
            data@.len() == width * height,
            forall|x: int, j: int|
                0 <= x < width && 0 <= j < height ==> #[trigger] data@[idx(x, j, width as int)]
                    == if j < y {
                    cell(q, t, scores, x, j)
                } else {
                    0
                },
        decreases height - y,
    {
        let mut x: usize = 1;
        while x < width
            invariant
                1 <= y < height,
                1 <= x <= width,
                width == q.len() + 1,
                height == t.len() + 1,
                q == query@,
                t == target@,
                width * height <= usize::MAX,
                scores_fit(q.len() as int, t.len() as int, scores),
                data@.len() == width * height,
                forall|x2: int, j: int|
                    0 <= x2 < width && 0 <= j < height ==> #[trigger] data@[idx(
                        x2,
                        j,
                        width as int,
                    )] == if j < y || (j == y && x2 < x) {
                        cell(q, t, scores, x2, j)
                    } else {
                        0
                    },
            decreases width - x,
        {
            proof {
                lemma_idx_bound(x as int, y as int, width as int, height as int);
                lemma_idx_bound(x as int, y - 1, width as int, height as int);
                lemma_idx_bound(x - 1, y as int, width as int, height as int);
                lemma_idx_bound(x - 1, y - 1, width as int, height as int);
                lemma_cell_fits(q, t, scores, x as int, y as int, q.len() as int, t.len() as int);
            }
            let skip_query = data[index(x, y - 1, width)];
            let skip_target = data[index(x - 1, y, width)];
            let take = data[index(x - 1, y - 1, width)];
            let sub = substitution(query[x - 1], target[y - 1], scores);
            let v = recurrence_step(skip_query, skip_target, take, sub, scores.gap);
            proof {
                assert(skip_query == cell(q, t, scores, x as int, y - 1));
                assert(skip_target == cell(q, t, scores, x - 1, y as int));
                assert(take == cell(q, t, scores, x - 1, y - 1));
                assert(v == cell(q, t, scores, x as int, y as int));
            }
            let i = index(x, y, width);
            data.set(i, v);
            proof {
                assert forall|x2: int, j: int| 0 <= x2 < width && 0 <= j < height implies #[trigger] data@[idx(
                    x2,
                    j,
                    width as int,
                )] == if j < y || (j == y && x2 < x + 1) {
                    cell(q, t, scores, x2, j)
                } else {
                    0
                } by {
                    lemma_idx_bound(x2, j, width as int, height as int);
                    if x2 != x || j != y {
                        lemma_idx_distinct(x2, j, x as int, y as int, width as int);
                    }
                }
            }
            x += 1;
        }
        y += 1;
    }
    data
}

/// Fills the whole surface in anti-diagonal order, one cell at a time: row `y`
/// holds the cells whose query and target positions sum to `y`.
pub fn string_scores_sequential(query: &[char], target: &[char], scores: AlignmentScores) -> (data: Vec<i16>)
    requires
        (query@.len() + 1) * (2 * query@.len() + target@.len() + 2) <= usize::MAX,
        scores_fit(query@.len() as int, target@.len() as int, scores),
    ensures
        data@.len() == (query@.len() + 1) * (2 * query@.len() + target@.len() + 2),
        forall|x: int, y: int|
            0 <= x <= query@.len() && 0 <= y < 2 * query@.len() + target@.len() + 2
                ==> #[trigger] data@[idx(x, y, query@.len() + 1 as int)] == diag(
                query@,
                target@,
                scores,
                x,
                y,
            ),
{
    proof {
        assert(query@.len() + 1 <= usize::MAX && 2 * query@.len() + target@.len() + 2 <= usize::MAX)
            by (nonlinear_arith)
            requires
                (query@.len() + 1) * (2 * query@.len() + target@.len() + 2) <= usize::MAX,
        ;
    }
    let width = query.len() + 1;
    let height = query.len() + target.len() + 1;
    let rows = width + height;
    let mut data: Vec<i16> = vec![0; width * rows];
    let ghost q = query@;
    let ghost t = target@;
    proof {
        assert forall|x: int, y: int| 0 <= x < width && 0 <= y < rows implies #[trigger] data@[idx(
            x,
            y,
            width as int,
        )] == if y < 1 {
            diag(q, t, scores, x, y)
        } else {
            0
        } by {
            lemma_idx_bound(x, y, width as int, rows as int);
        }
    }
    let mut y: usize = 1;
    while y < height
        invariant
            1 <= y <= height,
            width == q.len() + 1,
            height == q.len() + t.len() + 1,
            rows == width + height,
            q == query@,
            t == target@,
            width * rows <= usize::MAX,
            scores_fit(q.len() as int, t.len() as int, scores),
            data@.len() == width * rows,
            forall|x: int, y2: int|
                0 <= x < width && 0 <= y2 < rows ==> #[trigger] data@[idx(x, y2, width as int)]
                    == if y2 < y {
                    diag(q, t, scores, x, y2)
                } else {
                    0
                },
        decreases height - y,
    {
        let mut x: usize = 1;
        while x < width
            invariant
                1 <= y < height,
                1 <= x <= width,
                width == q.len() + 1,
                height == q.len() + t.len() + 1,
                rows == width + height,
                q == query@,
                t == target@,
                width * rows <= usize::MAX,
                scores_fit(q.len() as int, t.len() as int, scores),
                data@.len() == width * rows,
                forall|x2: int, y2: int|
                    0 <= x2 < width && 0 <= y2 < rows ==> #[trigger] data@[idx(
                        x2,
                        y2,
                        width as int,
                    )] == if y2 < y || (y2 == y && x2 < x) {
                        diag(q, t, scores, x2, y2)
                    } else {
                        0
                    },
            decreases width - x,
        {
            if x < y && y <= target.len() + x {
                proof {
                    lemma_idx_bound(x as int, y as int, width as int, rows as int);
                    lemma_idx_bound(x as int, y - 1, width as int, rows as int);
                    lemma_idx_bound(x - 1, y - 1, width as int, rows as int);
                    lemma_idx_bound(x - 1, y - 2, width as int, rows as int);
                    lemma_cell_fits(q, t, scores, x as int, y - x, q.len() as int, t.len() as int);
                }
                let skip_query = data[index(x, y - 1, width)];
                let skip_target = data[index(x - 1, y - 1, width)];
                let take = data[index(x - 1, y - 2, width)];
                let sub = substitution(query[x - 1], target[y - x - 1], scores);
                let v = recurrence_step(skip_query, skip_target, take, sub, scores.gap);
                proof {
                    assert(skip_query == diag(q, t, scores, x as int, y - 1));
                    assert(skip_target == diag(q, t, scores, x - 1, y - 1));
                    assert(take == diag(q, t, scores, x - 1, y - 2));
                    assert(v == diag(q, t, scores, x as int, y as int));
                }
                let i = index(x, y, width);
                data.set(i, v);
                proof {
                    assert forall|x2: int, y2: int| 0 <= x2 < width && 0 <= y2 < rows implies #[trigger] data@[idx(
                        x2,
                        y2,
                        width as int,
                    )] == if y2 < y || (y2 == y && x2 < x + 1) {
                        diag(q, t, scores, x2, y2)
                    } else {
                        0
                    } by {
                        lemma_idx_bound(x2, y2, width as int, rows as int);
                        if x2 != x || y2 != y {
                            lemma_idx_distinct(x2, y2, x as int, y as int, width as int);
                        }
                    }
                }
            }
            x += 1;
        }
        y += 1;
    }
    proof {
        assert forall|x: int, y2: int| 0 <= x < width && 0 <= y2 < rows implies #[trigger] data@[idx(
            x,
            y2,
            width as int,
        )] == diag(q, t, scores, x, y2) by {
        }
    }
    data
}

/// Appends `rev` to `dst` last element first, so that `dst` grows by `steps`.
fn append_reversed(dst: &mut Vec<char>, rev: &Vec<char>, Ghost(steps): Ghost<Seq<char>>)
    requires
        rev@.len() == steps.len(),
        forall|i: int| 0 <= i < steps.len() ==> rev@[i] == steps[steps.len() - 1 - i],
    ensures
        final(dst)@ == old(dst)@ + steps,
{
    let ghost start = dst@;
    let mut k = rev.len();
    while k > 0
        invariant
            k <= rev@.len(),
            rev@.len() == steps.len(),
            forall|i: int| 0 <= i < steps.len() ==> rev@[i] == steps[steps.len() - 1 - i],
            dst@ == start + steps.subrange(0, steps.len() - k),
        decreases k,
    {
        dst.push(rev[k - 1]);
        k -= 1;
        proof {
            assert(dst@ =~= start + steps.subrange(0, steps.len() - k));
        }
    }
    assert(steps.subrange(0, steps.len() as int) =~= steps);
}

/// Walks a row-major surface backward from `(x, y)` and appends the aligned
/// query and target to `query_result` and `target_result`.
pub fn traceback_straight(
    data: &[i16],
    query: &[char],
    target: &[char],
    x: usize,
    y: usize,
    width: usize,
    query_result: &mut Vec<char>,
    target_result: &mut Vec<char>,
    scores: AlignmentScores,
)
    requires
        width == query@.len() + 1,
        x <= query@.len(),
        y <= target@.len(),
        idx(query@.len() as int, target@.len() as int, width as int) < data@.len(),
        forall|x2: int, j: int|
            0 <= x2 <= query@.len() && 0 <= j <= target@.len() ==> #[trigger] data@[idx(
                x2,
                j,
                width as int,
            )] == cell(query@, target@, scores, x2, j),
    ensures
        final(query_result)@ == old(query_result)@ + trace(query@, target@, scores, x as int, y as int).0,
        final(target_result)@ == old(target_result)@ + trace(query@, target@, scores, x as int, y as int).1,
{
    let ghost q = query@;
    let ghost t = target@;
    let ghost goal = trace(q, t, scores, x as int, y as int);
    let data_len = data.len();
    let mut rev_query: Vec<char> = Vec::new();
    let mut rev_target: Vec<char> = Vec::new();
    let ghost mut tail_query: Seq<char> = Seq::empty();
    let ghost mut tail_target: Seq<char> = Seq::empty();
    let mut cx = x;
    let mut cy = y;
    let mut done = false;
    while !done
        invariant
            q == query@,
            t == target@,
            width == q.len() + 1,
            cx <= q.len(),
            cy <= t.len(),
            idx(q.len() as int, t.len() as int, width as int) < data@.len(),
            data_len == data@.len(),
            forall|x2: int, j: int|
                0 <= x2 <= q.len() && 0 <= j <= t.len() ==> #[trigger] data@[idx(x2, j, width as int)]
                    == cell(q, t, scores, x2, j),
            goal == trace(q, t, scores, x as int, y as int),
            goal.0 == trace(q, t, scores, cx as int, cy as int).0 + tail_query,
            goal.1 == trace(q, t, scores, cx as int, cy as int).1 + tail_target,
            done ==> trace_stops(q, t, scores, cx as int, cy as int),
            rev_query@.len() == tail_query.len(),
            rev_target@.len() == tail_target.len(),
            forall|i: int|
                0 <= i < tail_query.len() ==> rev_query@[i] == tail_query[tail_query.len() - 1 - i],
            forall|i: int|
                0 <= i < tail_target.len() ==> rev_target@[i] == tail_target[tail_target.len() - 1
                    - i],
        decreases cx + cy + if done { 0int } else { 1int },
    {
        if cx == 0 || cy == 0 {
            done = true;
        } else {
            proof {
                lemma_idx_monotone(cx as int, cy as int, q.len() as int, t.len() as int, width as int);
                lemma_idx_monotone(cx - 1, cy - 1, q.len() as int, t.len() as int, width as int);
                lemma_idx_monotone(cx - 1, cy as int, q.len() as int, t.len() as int, width as int);
                lemma_idx_monotone(cx as int, cy - 1, q.len() as int, t.len() as int, width as int);
                assert(data@[idx(cx as int, cy as int, width as int)] == cell(q, t, scores, cx as int, cy as int));
                assert(data@[idx(cx - 1, cy - 1, width as int)] == cell(q, t, scores, cx - 1, cy - 1));
                assert(data@[idx(cx - 1, cy as int, width as int)] == cell(q, t, scores, cx - 1, cy as int));
                assert(data@[idx(cx as int, cy - 1, width as int)] == cell(q, t, scores, cx as int, cy - 1));
            }
            let score = data[index(cx, cy, width)] as i32;
            let sub = substitution(query[cx - 1], target[cy - 1], scores) as i32;
            if score == 0 {
                done = true;
            } else if score == data[index(cx - 1, cy - 1, width)] as i32 + sub {
                proof {
                    assert(takes_diagonal(q, t, scores, cx as int, cy as int));
                    tail_query = seq![q[cx - 1]] + tail_query;
                    tail_target = seq![t[cy - 1]] + tail_target;
                }
                rev_query.push(query[cx - 1]);
                rev_target.push(target[cy - 1]);
                cx -= 1;
                cy -= 1;
                proof {
                    assert(goal.0 =~= trace(q, t, scores, cx as int, cy as int).0 + tail_query);
                    assert(goal.1 =~= trace(q, t, scores, cx as int, cy as int).1 + tail_target);
                }
            } else if score == data[index(cx - 1, cy, width)] as i32 + scores.gap as i32 {
                proof {
                    assert(takes_target_gap(q, t, scores, cx as int, cy as int));
                    tail_query = seq![q[cx - 1]] + tail_query;
                    tail_target = seq![gap_symbol()] + tail_target;
                }
                rev_query.push(query[cx - 1]);
                rev_target.push('-');
                cx -= 1;
                proof {
                    assert(goal.0 =~= trace(q, t, scores, cx as int, cy as int).0 + tail_query);
                    assert(goal.1 =~= trace(q, t, scores, cx as int, cy as int).1 + tail_target);
                }
            } else {
                proof {
                    lemma_cell_has_predecessor(q, t, scores, cx as int, cy as int);
                    tail_query = seq![gap_symbol()] + tail_query;
                    tail_target = seq![t[cy - 1]] + tail_target;
                }
                rev_query.push('-');
                rev_target.push(target[cy - 1]);
                cy -= 1;
                proof {
                    assert(goal.0 =~= trace(q, t, scores, cx as int, cy as int).0 + tail_query);
                    assert(goal.1 =~= trace(q, t, scores, cx as int, cy as int).1 + tail_target);
                }
            }
        }
    }
    proof {
        assert(goal.0 =~= tail_query);
        assert(goal.1 =~= tail_target);
    }
    append_reversed(query_result, &rev_query, Ghost(tail_query));
    append_reversed(target_result, &rev_target, Ghost(tail_target));
}

/// Walks an anti-diagonal surface backward from `(x, y)` and appends the aligned
/// query and target to `query_result` and `target_result`.
pub fn traceback(
    data: &[i16],
    query: &[char],
    target: &[char],
    x: usize,
    y: usize,
    width: usize,
    query_result: &mut Vec<char>,
    target_result: &mut Vec<char>,
    scores: AlignmentScores,
)
    requires
        width > query@.len(),
        x <= query@.len(),
        x <= y <= x + target@.len(),
        idx(query@.len() as int, (query@.len() + target@.len()) as int, width as int) < data@.len(),
        forall|x2: int, y2: int|
            0 <= x2 <= query@.len() && x2 <= y2 <= x2 + target@.len() ==> #[trigger] data@[idx(
                x2,
                y2,
                width as int,
            )] == diag(query@, target@, scores, x2, y2),
    ensures
        final(query_result)@ == old(query_result)@ + trace(query@, target@, scores, x as int, y - x).0,
        final(target_result)@ == old(target_result)@ + trace(query@, target@, scores, x as int, y - x).1,
{
    let ghost q = query@;
    let ghost t = target@;
    let ghost goal = trace(q, t, scores, x as int, y - x);
    let data_len = data.len();
    let mut rev_query: Vec<char> = Vec::new();
    let mut rev_target: Vec<char> = Vec::new();
    let ghost mut tail_query: Seq<char> = Seq::empty();
    let ghost mut tail_target: Seq<char> = Seq::empty();
    let mut cx = x;
    let mut cy = y;
    let mut done = false;
    while !done
        invariant
            q == query@,
            t == target@,
            width > q.len(),
            cx <= q.len(),
            cx <= cy <= cx + t.len(),
            idx(q.len() as int, (q.len() + t.len()) as int, width as int) < data@.len(),
            data_len == data@.len(),
            forall|x2: int, y2: int|
                0 <= x2 <= q.len() && x2 <= y2 <= x2 + t.len() ==> #[trigger] data@[idx(
                    x2,
                    y2,
                    width as int,
                )] == diag(q, t, scores, x2, y2),
            goal == trace(q, t, scores, x as int, y - x),
            goal.0 == trace(q, t, scores, cx as int, cy - cx).0 + tail_query,
            goal.1 == trace(q, t, scores, cx as int, cy - cx).1 + tail_target,
            done ==> trace_stops(q, t, scores, cx as int, cy - cx),
            rev_query@.len() == tail_query.len(),
            rev_target@.len() == tail_target.len(),
            forall|i: int|
                0 <= i < tail_query.len() ==> rev_query@[i] == tail_query[tail_query.len() - 1 - i],
            forall|i: int|
                0 <= i < tail_target.len() ==> rev_target@[i] == tail_target[tail_target.len() - 1
                    - i],
        decreases cx + cy + if done { 0int } else { 1int },
    {
        if cx == 0 || cy == 0 || cx == cy {
            done = true;
        } else {
            let ghost top: (int, int) = (q.len() as int, (q.len() + t.len()) as int);
            proof {
                lemma_idx_monotone(cx as int, cy as int, top.0, top.1, width as int);
                lemma_idx_monotone(cx - 1, cy - 2, top.0, top.1, width as int);
                lemma_idx_monotone(cx - 1, cy - 1, top.0, top.1, width as int);
                lemma_idx_monotone(cx as int, cy - 1, top.0, top.1, width as int);
                assert(data@[idx(cx as int, cy as int, width as int)] == diag(q, t, scores, cx as int, cy as int));
                assert(data@[idx(cx - 1, cy - 2, width as int)] == diag(q, t, scores, cx - 1, cy - 2));
                assert(data@[idx(cx - 1, cy - 1, width as int)] == diag(q, t, scores, cx - 1, cy - 1));
                assert(data@[idx(cx as int, cy - 1, width as int)] == diag(q, t, scores, cx as int, cy - 1));
            }
            let score = data[index(cx, cy, width)] as i32;
            let sub = substitution(query[cx - 1], target[cy - cx - 1], scores) as i32;
            if score == 0 {
                done = true;
            } else if score == data[index(cx - 1, cy - 2, width)] as i32 + sub {
                proof {
                    assert(takes_diagonal(q, t, scores, cx as int, cy - cx));
                    tail_query = seq![q[cx - 1]] + tail_query;
                    tail_target = seq![t[cy - cx - 1]] + tail_target;
                }
                rev_query.push(query[cx - 1]);
                rev_target.push(target[cy - cx - 1]);
                cx -= 1;
                cy -= 2;
                proof {
                    assert(goal.0 =~= trace(q, t, scores, cx as int, cy - cx).0 + tail_query);
                    assert(goal.1 =~= trace(q, t, scores, cx as int, cy - cx).1 + tail_target);
                }
            } else if score == data[index(cx - 1, cy - 1, width)] as i32 + scores.gap as i32 {
                proof {
                    assert(takes_target_gap(q, t, scores, cx as int, cy - cx));
                    tail_query = seq![q[cx - 1]] + tail_query;
                    tail_target = seq![gap_symbol()] + tail_target;
                }
                rev_query.push(query[cx - 1]);
                rev_target.push('-');
                cx -= 1;
                cy -= 1;
                proof {
                    assert(goal.0 =~= trace(q, t, scores, cx as int, cy - cx).0 + tail_query);
                    assert(goal.1 =~= trace(q, t, scores, cx as int, cy - cx).1 + tail_target);
                }
            } else {
                proof {
                    lemma_cell_has_predecessor(q, t, scores, cx as int, cy - cx);
                    tail_query = seq![gap_symbol()] + tail_query;
                    tail_target = seq![t[cy - cx - 1]] + tail_target;
                }
                rev_query.push('-');
                rev_target.push(target[cy - cx - 1]);
                cy -= 1;
                proof {
                    assert(goal.0 =~= trace(q, t, scores, cx as int, cy - cx).0 + tail_query);
                    assert(goal.1 =~= trace(q, t, scores, cx as int, cy - cx).1 + tail_target);
                }
            }
        }
    }
    proof {
        assert(goal.0 =~= tail_query);
        assert(goal.1 =~= tail_target);
    }
    append_reversed(query_result, &rev_query, Ghost(tail_query));
    append_reversed(target_result, &rev_target, Ghost(tail_target));
}

/// Walks a ring of anti-diagonal rows backward from `(x, y)` and appends the
/// aligned query and target to `query_result` and `target_result`. Row `r` of the
/// surface is kept in ring row `r % h`, where `h = data.len() / width`; the rows
/// of the last `h` that the walk reads must still be in place.
#[verifier::rlimit(40)]
pub fn traceback_wrapping(
    data: &[i16],
    query: &[char],
    target: &[char],
    x: usize,
    y: usize,
    width: usize,
    query_result: &mut Vec<char>,
    target_result: &mut Vec<char>,
    scores: AlignmentScores,
)
    requires
        width > query@.len(),
        x <= query@.len(),
        x <= y <= x + target@.len(),
        (data@.len() as int) % (width as int) == 0,
        trace_rows(query@, target@, scores, x as int, y - x) + 2 <= (data@.len() as int) / (width as int),
        forall|x2: int, y2: int|
            0 <= x2 <= query@.len() && x2 <= y2 <= x2 + target@.len() && y2 <= y && y < y2
                + (data@.len() as int) / (width as int) ==> #[trigger] data@[idx(
                x2,
                y2 % ((data@.len() as int) / (width as int)),
                width as int,
            )] == diag(query@, target@, scores, x2, y2),
    ensures
        final(query_result)@ == old(query_result)@ + trace(query@, target@, scores, x as int, y - x).0,
        final(target_result)@ == old(target_result)@ + trace(query@, target@, scores, x as int, y - x).1,
{
    let ghost q = query@;
    let ghost t = target@;
    let ghost goal = trace(q, t, scores, x as int, y - x);
    let data_len = data.len();
    let height = data_len / width;
    proof {
        assert(data_len == width * height) by (nonlinear_arith)
            requires
                data_len % width == 0,
                height == data_len / width,
                width > 0,
        ;
    }
    let mut rev_query: Vec<char> = Vec::new();
    let mut rev_target: Vec<char> = Vec::new();
    let ghost mut tail_query: Seq<char> = Seq::empty();
    let ghost mut tail_target: Seq<char> = Seq::empty();
    let mut cx = x;
    let mut cy = y;
    let mut done = false;
    while !done
        invariant
            q == query@,
            t == target@,
            width > q.len(),
            cx <= q.len(),
            cx <= cy <= cx + t.len(),
            data_len == data@.len(),
            data_len == width * height,
            height == (data@.len() as int) / (width as int),
            y - cy + trace_rows(q, t, scores, cx as int, cy - cx) == trace_rows(q, t, scores, x as int, y - x),
            trace_rows(q, t, scores, x as int, y - x) + 2 <= height,
            cy <= y,
            forall|x2: int, y2: int|
                0 <= x2 <= q.len() && x2 <= y2 <= x2 + t.len() && y2 <= y && y < y2 + height
                    ==> #[trigger] data@[idx(x2, y2 % (height as int), width as int)] == diag(q, t, scores, x2, y2),
            goal == trace(q, t, scores, x as int, y - x),
            goal.0 == trace(q, t, scores, cx as int, cy - cx).0 + tail_query,
            goal.1 == trace(q, t, scores, cx as int, cy - cx).1 + tail_target,
            done ==> trace_stops(q, t, scores, cx as int, cy - cx),
            rev_query@.len() == tail_query.len(),
            rev_target@.len() == tail_target.len(),
            forall|i: int|
                0 <= i < tail_query.len() ==> rev_query@[i] == tail_query[tail_query.len() - 1 - i],
            forall|i: int|
                0 <= i < tail_target.len() ==> rev_target@[i] == tail_target[tail_target.len() - 1
                    - i],
        decreases cx + cy + if done { 0int } else { 1int },
    {
        if cx == 0 || cy == 0 || cx == cy {
            done = true;
        } else {
            let ghost h: int = height as int;
            proof {
                lemma_trace_counts_nonneg(q, t, scores, cx as int, cy - cx);
                lemma_trace_counts_nonneg(q, t, scores, x as int, y - x);
                lemma_idx_bound(cx as int, (cy as int) % h, width as int, h);
                lemma_idx_bound(cx - 1, (cy - 2) % h, width as int, h);
                lemma_idx_bound(cx - 1, (cy - 1) % h, width as int, h);
                lemma_idx_bound(cx as int, (cy - 1) % h, width as int, h);
                assert(data@[idx(cx as int, (cy as int) % h, width as int)] == diag(q, t, scores, cx as int, cy as int));
            }
            let score = data[index(cx, cy % height, width)] as i32;
            let sub = substitution(query[cx - 1], target[cy - cx - 1], scores) as i32;
            if score == 0 {
                done = true;
            } else {
            proof {
                assert(!trace_stops(q, t, scores, cx as int, cy - cx));
                assert(data@[idx(cx - 1, (cy - 2) % (height as int), width as int)] == diag(q, t, scores, cx - 1, cy - 2));
                assert(data@[idx(cx - 1, (cy - 1) % (height as int), width as int)] == diag(q, t, scores, cx - 1, cy - 1));
                assert(data@[idx(cx as int, (cy - 1) % (height as int), width as int)] == diag(q, t, scores, cx as int, cy - 1));
            }
            let take = data[index(cx - 1, (cy - 2) % height, width)] as i32;
            let skip_target = data[index(cx - 1, (cy - 1) % height, width)] as i32;
            if score == take + sub {
                proof {
                    assert(takes_diagonal(q, t, scores, cx as int, cy - cx));
                    tail_query = seq![q[cx - 1]] + tail_query;
                    tail_target = seq![t[cy - cx - 1]] + tail_target;
                }
                rev_query.push(query[cx - 1]);
                rev_target.push(target[cy - cx - 1]);
                cx -= 1;
                cy -= 2;
                proof {
                    assert(goal.0 =~= trace(q, t, scores, cx as int, cy - cx).0 + tail_query);
                    assert(goal.1 =~= trace(q, t, scores, cx as int, cy - cx).1 + tail_target);
                }
            } else if score == skip_target + scores.gap as i32 {
                proof {
                    assert(takes_target_gap(q, t, scores, cx as int, cy - cx));
                    tail_query = seq![q[cx - 1]] + tail_query;
                    tail_target = seq![gap_symbol()] + tail_target;
                }
                rev_query.push(query[cx - 1]);
                rev_target.push('-');
                cx -= 1;
                cy -= 1;
                proof {
                    assert(goal.0 =~= trace(q, t, scores, cx as int, cy - cx).0 + tail_query);
                    assert(goal.1 =~= trace(q, t, scores, cx as int, cy - cx).1 + tail_target);
                }
            } else {
                proof {
                    lemma_cell_has_predecessor(q, t, scores, cx as int, cy - cx);
                    tail_query = seq![gap_symbol()] + tail_query;
                    tail_target = seq![t[cy - cx - 1]] + tail_target;
                }
                rev_query.push('-');
                rev_target.push(target[cy - cx - 1]);
                cy -= 1;
                proof {
                    assert(goal.0 =~= trace(q, t, scores, cx as int, cy - cx).0 + tail_query);
                    assert(goal.1 =~= trace(q, t, scores, cx as int, cy - cx).1 + tail_target);
                }
            }
            }
        }
    }
    proof {
        assert(goal.0 =~= tail_query);
        assert(goal.1 =~= tail_target);
    }
    append_reversed(query_result, &rev_query, Ghost(tail_query));
    append_reversed(target_result, &rev_target, Ghost(tail_target));
}

/// Rows before `y`, and the cells of row `y` before column `x`, of an
/// anti-diagonal surface of `width` columns hold the surface over `q` and `t`;
/// every other cell is still zero.
pub open spec fn diag_filled_upto(
    data: Seq<i16>,
    q: Seq<char>,
    t: Seq<char>,
    s: AlignmentScores,
    width: int,
    rows: int,
    x: int,
    y: int,
) -> bool {
    forall|x2: int, y2: int|
        0 <= x2 < width && 0 <= y2 < rows ==> #[trigger] data[idx(x2, y2, width)] == if y2 < y
            || (y2 == y && x2 < x) {
            diag(q, t, s, x2, y2)
        } else {
            0
        }
}

/// Every row before `y` of an anti-diagonal surface of `width` columns holds
/// the surface over `q` and `t`.
pub open spec fn diag_rows_done(
    data: Seq<i16>,
    q: Seq<char>,
    t: Seq<char>,
    s: AlignmentScores,
    width: int,
    rows: int,
    y: int,
) -> bool {
    forall|x2: int, y2: int|
        0 <= x2 < width && 0 <= y2 < rows && y2 < y ==> #[trigger] data[idx(x2, y2, width)] == diag(
            q,
            t,
            s,
            x2,
            y2,
        )
}

/// One worker's share of anti-diagonal row `y`: the scores of columns
/// `left .. right`, computed from rows `y - 1` and `y - 2` only. Workers may
/// compute the bands of one row side by side once the earlier rows are complete.
pub fn band_row(
    data: &[i16],
    query: &[char],
    target: &[char],
    y: usize,
    left: usize,
    right: usize,
    scores: AlignmentScores,
) -> (r: Vec<i16>)
    requires
        1 <= left <= right <= query@.len() + 1,
        1 <= y < 2 * query@.len() + target@.len() + 2,
        data@.len() == (query@.len() + 1) * (2 * query@.len() + target@.len() + 2),
        scores_fit(query@.len() as int, target@.len() as int, scores),
        diag_rows_done(
            data@,
            query@,
            target@,
            scores,
            query@.len() + 1 as int,
            2 * query@.len() + target@.len() + 2 as int,
            y as int,
        ),
    ensures
        r@.len() == right - left,
        forall|k: int| 0 <= k < r@.len() ==> #[trigger] r@[k] == diag(query@, target@, scores, left + k, y as int),
{
    let ghost q = query@;
    let ghost t = target@;
    let ghost rows: int = 2 * q.len() as int + t.len() as int + 2;
    let data_len = data.len();
    proof {
        assert(q.len() + 1 <= usize::MAX) by (nonlinear_arith)
            requires
                (q.len() + 1) * rows == data_len,
                data_len <= usize::MAX,
                rows >= 1,
        ;
    }
    let width = query.len() + 1;
    let mut values: Vec<i16> = Vec::new();
    let mut x = left;
    while x < right
        invariant
            q == query@,
            t == target@,
            width == q.len() + 1,
            rows == 2 * q.len() + t.len() + 2,
            1 <= left <= x <= right <= width,
            1 <= y < rows,
            data@.len() == width * rows,
            data_len == data@.len(),
            scores_fit(q.len() as int, t.len() as int, scores),
            diag_rows_done(data@, q, t, scores, width as int, rows, y as int),
            values@.len() == x - left,
            forall|k: int| 0 <= k < values@.len() ==> #[trigger] values@[k] == diag(q, t, scores, left + k, y as int),
        decreases right - x,
    {
        let v = if x < y && y - x <= target.len() {
            proof {
                lemma_idx_bound(x as int, y - 1, width as int, rows);
                lemma_idx_bound(x - 1, y - 1, width as int, rows);
                lemma_idx_bound(x - 1, y - 2, width as int, rows);
                lemma_cell_fits(q, t, scores, x as int, y - x, q.len() as int, t.len() as int);
                assert(data@[idx(x as int, y - 1, width as int)] == diag(q, t, scores, x as int, y - 1));
                assert(data@[idx(x - 1, y - 1, width as int)] == diag(q, t, scores, x - 1, y - 1));
                assert(data@[idx(x - 1, y - 2, width as int)] == diag(q, t, scores, x - 1, y - 2));
            }
            let skip_query = data[index(x, y - 1, width)];
            let skip_target = data[index(x - 1, y - 1, width)];
            let take = data[index(x - 1, y - 2, width)];
            let sub = substitution(query[x - 1], target[y - x - 1], scores);
            recurrence_step(skip_query, skip_target, take, sub, scores.gap)
        } else {
            0
        };
        values.push(v);
        x += 1;
    }
    values
}

/// Writes a band computed by `band_row` into row `y`, starting at column `left`.
/// Bands of a row are stored from left to right.
pub fn store_band_row(
    data: &mut Vec<i16>,
    query: &[char],
    target: &[char],
    values: &Vec<i16>,
    y: usize,
    left: usize,
    scores: AlignmentScores,
)
    requires
        1 <= left,
        left + values@.len() <= query@.len() + 1,
        1 <= y < 2 * query@.len() + target@.len() + 2,
        old(data)@.len() == (query@.len() + 1) * (2 * query@.len() + target@.len() + 2),
        forall|k: int| 0 <= k < values@.len() ==> #[trigger] values@[k] == diag(query@, target@, scores, left + k, y as int),
        diag_filled_upto(
            old(data)@,
            query@,
            target@,
            scores,
            query@.len() + 1 as int,
            2 * query@.len() + target@.len() + 2 as int,
            left as int,
            y as int,
        ),
    ensures
        final(data)@.len() == old(data)@.len(),
        diag_filled_upto(
            final(data)@,
            query@,
            target@,
            scores,
            query@.len() + 1 as int,
            2 * query@.len() + target@.len() + 2 as int,
            left + values@.len(),
            y as int,
        ),
{
    let ghost q = query@;
    let ghost t = target@;
    let ghost rows: int = 2 * q.len() as int + t.len() as int + 2;
    let data_len = data.len();
    proof {
        assert(q.len() + 1 <= usize::MAX) by (nonlinear_arith)
            requires
                (q.len() + 1) * rows == data_len,
                data_len <= usize::MAX,
                rows >= 1,
        ;
    }
    let width = query.len() + 1;
    let mut k: usize = 0;
    while k < values.len()
        invariant
            q == query@,
            t == target@,
            width == q.len() + 1,
            rows == 2 * q.len() + t.len() + 2,
            1 <= left,
            left + values@.len() <= width,
            k <= values@.len(),
            1 <= y < rows,
            data@.len() == width * rows,
            data@.len() == data_len,
            forall|k2: int| 0 <= k2 < values@.len() ==> #[trigger] values@[k2] == diag(q, t, scores, left + k2, y as int),
            diag_filled_upto(data@, q, t, scores, width as int, rows, left + k, y as int),
        decreases values@.len() - k,
    {
        let x = left + k;
        let ghost before = data@;
        proof {
            lemma_idx_bound(x as int, y as int, width as int, rows);
        }
        data.set(index(x, y, width), values[k]);
        proof {
            assert forall|x2: int, y2: int| 0 <= x2 < width && 0 <= y2 < rows implies #[trigger] data@[idx(
                x2,
                y2,
                width as int,
            )] == if y2 < y || (y2 == y && x2 < x + 1) {
                diag(q, t, scores, x2, y2)
            } else {
                0
            } by {
                lemma_idx_bound(x2, y2, width as int, rows);
                if x2 != x || y2 != y {
                    lemma_idx_distinct(x2, y2, x as int, y as int, width as int);
                    assert(data@[idx(x2, y2, width as int)] == before[idx(x2, y2, width as int)]);
                }
            }
        }
        k += 1;
    }
}

/// Columns `left .. right` of band `band` when the query columns `1 ..= query_len`
/// are split into `bands` contiguous bands of near-equal width.
pub fn band_columns(band: usize, bands: usize, query_len: usize) -> (r: (usize, usize))
    requires
        band < bands,
        bands * query_len <= usize::MAX,
        query_len < usize::MAX,
    ensures
        r.0 == band * query_len / (bands as int) + 1,
        r.1 == (band + 1) * query_len / (bands as int) + 1,
        1 <= r.0 <= r.1 <= query_len + 1,
{
    proof {
        assert(band * query_len <= (band + 1) * query_len <= bands * query_len) by (nonlinear_arith)
            requires
                band < bands,
        ;
        assert(band * query_len / (bands as int) <= (band + 1) * query_len / (bands as int) <= query_len)
            by (nonlinear_arith)
            requires
                band < bands,
                band * query_len <= (band + 1) * query_len <= bands * query_len,
        ;
    }
    (band * query_len / bands + 1, (band + 1) * query_len / bands + 1)
}

/// Fills the anti-diagonal surface with the query columns split into `threads`
/// contiguous bands (at most one per query symbol). Row by row, every band is
/// completed before the next row starts, as a barrier after each row ensures
/// for workers that run the bands side by side.
pub fn string_scores_parallel(
    query: &[char],
    target: &[char],
    scores: AlignmentScores,
    threads: usize,
) -> (data: Vec<i16>)
    requires
        threads >= 1,
        threads * query@.len() <= usize::MAX,
        (query@.len() + 1) * (2 * query@.len() + target@.len() + 2) <= usize::MAX,
        scores_fit(query@.len() as int, target@.len() as int, scores),
    ensures
        data@.len() == (query@.len() + 1) * (2 * query@.len() + target@.len() + 2),
        forall|x: int, y: int|
            0 <= x <= query@.len() && 0 <= y < 2 * query@.len() + target@.len() + 2
                ==> #[trigger] data@[idx(x, y, query@.len() + 1 as int)] == diag(
                query@,
                target@,
                scores,
                x,
                y,
            ),
{
    proof {
        assert(query@.len() + 1 <= usize::MAX && 2 * query@.len() + target@.len() + 2 <= usize::MAX)
            by (nonlinear_arith)
            requires
                (query@.len() + 1) * (2 * query@.len() + target@.len() + 2) <= usize::MAX,
        ;
    }
    let ghost q = query@;
    let ghost t = target@;
    let width = query.len() + 1;
    let rows = 2 * query.len() + target.len() + 2;
    let height = query.len() + target.len() + 1;
    let bands = if threads < query.len() { threads } else { query.len() };
    let mut data: Vec<i16> = vec![0; width * rows];
    proof {
        assert(bands * q.len() <= threads * q.len()) by (nonlinear_arith)
            requires
                bands <= threads,
        ;
        assert forall|x: int, y: int| 0 <= x < width && 0 <= y < rows implies #[trigger] data@[idx(
            x,
            y,
            width as int,
        )] == if y < 1 || (y == 1 && x < 0) {
            diag(q, t, scores, x, y)
        } else {
            0
        } by {
            lemma_idx_bound(x, y, width as int, rows as int);
        }
    }
    let mut y: usize = 1;
    while y < height
        invariant
            q == query@,
            t == target@,
            width == q.len() + 1,
            rows == 2 * q.len() + t.len() + 2,
            height == q.len() + t.len() + 1,
            1 <= y <= height,
            bands <= q.len(),
            bands <= threads,
            bands == 0 ==> q.len() == 0,
            bands * q.len() <= usize::MAX,
            data@.len() == width * rows,
            data@.len() <= usize::MAX,
            scores_fit(q.len() as int, t.len() as int, scores),
            diag_filled_upto(data@, q, t, scores, width as int, rows as int, 0, y as int),
        decreases height - y,
    {
        if bands > 0 {
            proof {
                let d0 = data@;
                assert(0 * (q.len() as int) / (bands as int) == 0);
                assert forall|x2: int, y2: int| 0 <= x2 < width && 0 <= y2 < rows implies #[trigger] d0[idx(
                    x2,
                    y2,
                    width as int,
                )] == if y2 < y || (y2 == y && x2 < 1) {
                    diag(q, t, scores, x2, y2)
                } else {
                    0
                } by {
                }
            }
            let mut band: usize = 0;
            while band < bands
                invariant
                    q == query@,
                    t == target@,
                    width == q.len() + 1,
                    rows == 2 * q.len() + t.len() + 2,
                    height == q.len() + t.len() + 1,
                    1 <= y < height,
                    0 < bands <= q.len(),
                    bands * q.len() <= usize::MAX,
                    band <= bands,
                    data@.len() == width * rows,
                    data@.len() <= usize::MAX,
                    scores_fit(q.len() as int, t.len() as int, scores),
                    diag_filled_upto(
                        data@,
                        q,
                        t,
                        scores,
                        width as int,
                        rows as int,
                        band * q.len() / (bands as int) + 1,
                        y as int,
                    ),
                decreases bands - band,
            {
                proof {
                    assert(band * q.len() <= (band + 1) * q.len() <= bands * q.len()) by (nonlinear_arith)
                        requires
                            band < bands,
                    ;
                    assert(band * q.len() / (bands as int) <= (band + 1) * q.len() / (bands as int) <= q.len())
                        by (nonlinear_arith)
                        requires
                            band < bands,
                            bands > 0,
                            band * q.len() <= (band + 1) * q.len() <= bands * q.len(),
                    ;
                }
                let (left, right) = band_columns(band, bands, width - 1);
                proof {
                    assert(diag_rows_done(data@, q, t, scores, width as int, rows as int, y as int));
                }
                let values = band_row(data.as_slice(), query, target, y, left, right, scores);
                store_band_row(&mut data, query, target, &values, y, left, scores);
                band += 1;
            }
            proof {
                assert(bands * q.len() / (bands as int) == q.len()) by (nonlinear_arith)
                    requires
                        bands > 0,
                ;
            }
        }
        proof {
            let d = data@;
            assert forall|x2: int, y2: int| 0 <= x2 < width && 0 <= y2 < rows implies #[trigger] d[idx(
                x2,
                y2,
                width as int,
            )] == if y2 < y + 1 || (y2 == y + 1 && x2 < 0) {
                diag(q, t, scores, x2, y2)
            } else {
                0
            } by {
                if y2 == y && bands == 0 {
                    assert(x2 == 0);
                }
            }
        }
        y += 1;
    }
    proof {
        assert forall|x: int, y2: int| 0 <= x < width && 0 <= y2 < rows implies #[trigger] data@[idx(
            x,
            y2,
            width as int,
        )] == diag(q, t, scores, x, y2) by {
        }
    }
    data
}

} // verus!
