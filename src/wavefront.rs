//! Wavefront evaluation of the anti-diagonal surface: whole rows of `LANES`-wide
//! batches over padded sequences, with the full surface kept.
use vstd::prelude::*;
use crate::algorithm::{argmax, recurrence_step, substitution_of};
use crate::model::{
    cell, diag, first_best_by_diagonals, idx, is_best, lemma_cell_nonneg, lemma_idx_monotone,
    lemma_idx_strict, lemma_cell_fits, lemma_idx_bound, lemma_idx_distinct, lemma_padded_cell,
    padded, round_up, scores_fit, symbol_at, wavefront_fits, AlignmentScores, Symbol,
};
use crate::utils::{index, roundup};

verus! {

/// Rows before `y`, and the cells of row `y` before column `x`, hold the surface
/// over `pq` and `pt`; every other cell is still zero.
pub open spec fn filled_upto(
    data: Seq<i16>,
    pq: Seq<Symbol>,
    pt: Seq<Symbol>,
    s: AlignmentScores,
    width: int,
    rows: int,
    x: int,
    y: int,
) -> bool {
    forall|x2: int, y2: int|
        0 <= x2 < width && 0 <= y2 < rows ==> #[trigger] data[idx(x2, y2, width)] == if y2 < y
            || (y2 == y && x2 < x) {
            diag(pq, pt, s, x2, y2)
        } else {
            0
        }
}

/// Whether query symbol `x` equals target symbol `j` (both counted from 1) once
/// both sequences are padded: padding never matches.
pub(crate) fn padded_match(query: &[char], target: &[char], x: usize, j: usize) -> (r: bool)
    requires
        x >= 1,
        j >= 1,
    ensures
        r == (symbol_at(query@, x - 1, Symbol::QueryPad) == symbol_at(target@, j - 1, Symbol::TargetPad)),
{
    x <= query.len() && j <= target.len() && query[x - 1] == target[j - 1]
}

/// Computes cell `(x, y)` from rows `y - 1` and `y - 2`; `is_match` tells whether
/// the symbols that the cell compares are equal.
fn set_cell(
    data: &mut Vec<i16>,
    is_match: bool,
    x: usize,
    y: usize,
    width: usize,
    rows: usize,
    Ghost(pq): Ghost<Seq<Symbol>>,
    Ghost(pt): Ghost<Seq<Symbol>>,
    scores: AlignmentScores,
)
    requires
        width == pq.len() + 1,
        old(data)@.len() == width * rows,
        width * rows <= usize::MAX,
        1 <= x < width,
        x < y < rows,
        y - x <= pt.len(),
        scores_fit(pq.len() as int, pt.len() as int, scores),
        is_match == (pq[x - 1] == pt[y - x - 1]),
        filled_upto(old(data)@, pq, pt, scores, width as int, rows as int, x as int, y as int),
    ensures
        final(data)@.len() == old(data)@.len(),
        filled_upto(final(data)@, pq, pt, scores, width as int, rows as int, x + 1, y as int),
{
    proof {
        lemma_idx_bound(x as int, y as int, width as int, rows as int);
        lemma_idx_bound(x as int, y - 1, width as int, rows as int);
        lemma_idx_bound(x - 1, y - 1, width as int, rows as int);
        lemma_idx_bound(x - 1, y - 2, width as int, rows as int);
        lemma_cell_fits(pq, pt, scores, x as int, y - x, pq.len() as int, pt.len() as int);
    }
    let skip_query = data[index(x, y - 1, width)];
    let skip_target = data[index(x - 1, y - 1, width)];
    let take = data[index(x - 1, y - 2, width)];
    let sub = substitution_of(is_match, scores);
    let v = recurrence_step(skip_query, skip_target, take, sub, scores.gap);
    proof {
        assert(skip_query == diag(pq, pt, scores, x as int, y - 1));
        assert(skip_target == diag(pq, pt, scores, x - 1, y - 1));
        assert(take == diag(pq, pt, scores, x - 1, y - 2));
        assert(v == diag(pq, pt, scores, x as int, y as int));
    }
    let ghost before = data@;
    let i = index(x, y, width);
    data.set(i, v);
    proof {
        assert forall|x2: int, y2: int| 0 <= x2 < width && 0 <= y2 < rows implies #[trigger] data@[idx(
            x2,
            y2,
            width as int,
        )] == if y2 < y || (y2 == y && x2 < x + 1) {
            diag(pq, pt, scores, x2, y2)
        } else {
            0
        } by {
            lemma_idx_bound(x2, y2, width as int, rows as int);
            if x2 != x || y2 != y {
                lemma_idx_distinct(x2, y2, x as int, y as int, width as int);
                assert(data@[idx(x2, y2, width as int)] == before[idx(x2, y2, width as int)]);
            }
        }
    }
}

/// The padded query and target of a surface whose rows are `width` cells wide
/// and whose target is padded to `target_size`.
pub open spec fn padded_pair(q: Seq<char>, t: Seq<char>, width: int, target_size: int) -> (Seq<Symbol>, Seq<Symbol>) {
    (padded(q, width - 1, Symbol::QueryPad), padded(t, target_size, Symbol::TargetPad))
}

/// Computes row `y` one cell at a time, skipping the cells outside the padded
/// sequences.
fn fill_row_scalar(
    data: &mut Vec<i16>,
    query: &[char],
    target: &[char],
    target_size: usize,
    y: usize,
    width: usize,
    rows: usize,
    scores: AlignmentScores,
)
    requires
        query@.len() < width,
        target@.len() <= target_size,
        old(data)@.len() == width * rows,
        width * rows <= usize::MAX,
        1 <= y < rows,
        scores_fit(width - 1, target_size as int, scores),
        filled_upto(
            old(data)@,
            padded_pair(query@, target@, width as int, target_size as int).0,
            padded_pair(query@, target@, width as int, target_size as int).1,
            scores,
            width as int,
            rows as int,
            0,
            y as int,
        ),
    ensures
        final(data)@.len() == old(data)@.len(),
        filled_upto(
            final(data)@,
            padded_pair(query@, target@, width as int, target_size as int).0,
            padded_pair(query@, target@, width as int, target_size as int).1,
            scores,
            width as int,
            rows as int,
            0,
            y + 1,
        ),
{
    let ghost pq = padded_pair(query@, target@, width as int, target_size as int).0;
    let ghost pt = padded_pair(query@, target@, width as int, target_size as int).1;
    assert(pq.len() == width - 1 && pt.len() == target_size);
    let mut x: usize = 1;
    while x < width
        invariant
            1 <= x <= width,
            pq == padded_pair(query@, target@, width as int, target_size as int).0,
            pt == padded_pair(query@, target@, width as int, target_size as int).1,
            pq.len() == width - 1,
            pt.len() == target_size,
            data@.len() == width * rows,
            width * rows <= usize::MAX,
            1 <= y < rows,
            scores_fit(width - 1, target_size as int, scores),
            filled_upto(data@, pq, pt, scores, width as int, rows as int, x as int, y as int),
        decreases width - x,
    {
        if x < y && y - x <= target_size {
            let is_match = padded_match(query, target, x, y - x);
            set_cell(data, is_match, x, y, width, rows, Ghost(pq), Ghost(pt), scores);
        }
        x += 1;
    }
}

/// Computes row `y` in batches of `LANES` cells. Every cell of the row lies
/// inside the padded sequences. A batch first compares its query symbols with
/// the target symbols on its diagonal, then combines the two previous rows.
fn fill_row_lanes<const LANES: usize>(
    data: &mut Vec<i16>,
    query: &[char],
    target: &[char],
    target_size: usize,
    y: usize,
    width: usize,
    rows: usize,
    scores: AlignmentScores,
)
    requires
        LANES > 0,
        query@.len() < width,
        (width - 1) % (LANES as int) == 0,
        target@.len() <= target_size,
        width <= y <= target_size + 1,
        y < rows,
        old(data)@.len() == width * rows,
        width * rows <= usize::MAX,
        scores_fit(width - 1, target_size as int, scores),
        filled_upto(
            old(data)@,
            padded_pair(query@, target@, width as int, target_size as int).0,
            padded_pair(query@, target@, width as int, target_size as int).1,
            scores,
            width as int,
            rows as int,
            0,
            y as int,
        ),
    ensures
        final(data)@.len() == old(data)@.len(),
        filled_upto(
            final(data)@,
            padded_pair(query@, target@, width as int, target_size as int).0,
            padded_pair(query@, target@, width as int, target_size as int).1,
            scores,
            width as int,
            rows as int,
            0,
            y + 1,
        ),
{
    let ghost pq = padded_pair(query@, target@, width as int, target_size as int).0;
    let ghost pt = padded_pair(query@, target@, width as int, target_size as int).1;
    assert(pq.len() == width - 1 && pt.len() == target_size);
    let lanes = (width - 1) / LANES;
    proof {
        assert(lanes * LANES == width - 1) by (nonlinear_arith)
            requires
                lanes == (width - 1) / (LANES as int),
                (width - 1) % (LANES as int) == 0,
                LANES > 0,
        ;
    }
    let mut start_x: usize = 1;
    let mut lane_index: usize = 0;
    while lane_index < lanes
        invariant
            LANES > 0,
            lanes * LANES == width - 1,
            lane_index <= lanes,
            start_x == 1 + lane_index * LANES,
            pq == padded_pair(query@, target@, width as int, target_size as int).0,
            pt == padded_pair(query@, target@, width as int, target_size as int).1,
            pq.len() == width - 1,
            pt.len() == target_size,
            width <= y <= target_size + 1,
            y < rows,
            data@.len() == width * rows,
            width * rows <= usize::MAX,
            scores_fit(width - 1, target_size as int, scores),
            filled_upto(data@, pq, pt, scores, width as int, rows as int, start_x as int, y as int),
        decreases lanes - lane_index,
    {
        proof {
            assert(lane_index * LANES + LANES <= lanes * LANES) by (nonlinear_arith)
                requires
                    lane_index < lanes,
                    LANES > 0,
            ;
        }
        let mut mask: Vec<bool> = Vec::new();
        let mut i: usize = 0;
        while i < LANES
            invariant
                i <= LANES,
                start_x + LANES <= width,
                1 <= start_x,
                width <= y,
                mask@.len() == i,
                forall|k: int|
                    0 <= k < i ==> mask@[k] == (symbol_at(query@, start_x + k - 1, Symbol::QueryPad)
                        == symbol_at(target@, y - start_x - k - 1, Symbol::TargetPad)),
            decreases LANES - i,
        {
            mask.push(padded_match(query, target, start_x + i, y - start_x - i));
            i += 1;
        }
        let mut i: usize = 0;
        while i < LANES
            invariant
                i <= LANES,
                start_x + LANES <= width,
                1 <= start_x,
                mask@.len() == LANES,
                forall|k: int|
                    0 <= k < LANES ==> mask@[k] == (symbol_at(query@, start_x + k - 1, Symbol::QueryPad)
                        == symbol_at(target@, y - start_x - k - 1, Symbol::TargetPad)),
                pq == padded_pair(query@, target@, width as int, target_size as int).0,
                pt == padded_pair(query@, target@, width as int, target_size as int).1,
                pq.len() == width - 1,
                pt.len() == target_size,
                width <= y <= target_size + 1,
                y < rows,
                data@.len() == width * rows,
                width * rows <= usize::MAX,
                scores_fit(width - 1, target_size as int, scores),
                filled_upto(data@, pq, pt, scores, width as int, rows as int, start_x + i, y as int),
            decreases LANES - i,
        {
            let x = start_x + i;
            proof {
                assert(pq[x - 1] == symbol_at(query@, x - 1, Symbol::QueryPad));
                assert(pt[y - x - 1] == symbol_at(target@, y - x - 1, Symbol::TargetPad));
            }
            set_cell(data, mask[i], x, y, width, rows, Ghost(pq), Ghost(pt), scores);
            i += 1;
        }
        start_x += LANES;
        lane_index += 1;
        proof {
            assert(start_x == 1 + lane_index * LANES) by (nonlinear_arith)
                requires
                    start_x == 1 + (lane_index - 1) * LANES + LANES,
            ;
        }
    }
    proof {
        assert(start_x == width);
    }
}

/// Rounds both lengths up to whole batches of `LANES` and fills the full
/// anti-diagonal surface over the padded sequences: a scalar ramp-up over the
/// first `width` rows, whole rows of batches while the target lasts, and a scalar
/// ramp-down over the trailing rows.
pub fn string_scores_simd<const LANES: usize>(
    query: &[char],
    target: &[char],
    scores: AlignmentScores,
) -> (data: Vec<i16>)
    requires
        wavefront_fits(query@.len() as int, target@.len() as int, LANES as int, scores),
    ensures
        ({
            let qs = round_up(query@.len() as int, LANES as int);
            let ts = round_up(target@.len() as int, LANES as int);
            &&& data@.len() == (qs + 1) * (2 * qs + ts + 2)
            &&& forall|x: int, y: int|
                0 <= x <= qs && 0 <= y < 2 * qs + ts + 2 ==> #[trigger] data@[idx(x, y, qs + 1)]
                    == diag(
                    padded(query@, qs, Symbol::QueryPad),
                    padded(target@, ts, Symbol::TargetPad),
                    scores,
                    x,
                    y,
                )
            &&& forall|x: int, y: int|
                0 <= x <= query@.len() && x <= y <= x + target@.len() ==> #[trigger] data@[idx(
                    x,
                    y,
                    qs + 1,
                )] == diag(query@, target@, scores, x, y)
        }),
{
    let query_size = roundup(query.len(), LANES);
    let target_size = roundup(target.len(), LANES);
    proof {
        assert(query_size + 1 <= usize::MAX && 2 * query_size + target_size + 2 <= usize::MAX)
            by (nonlinear_arith)
            requires
                (query_size + 1) * (2 * query_size + target_size + 2) <= usize::MAX,
        ;
    }
    let width = query_size + 1;
    let data_height = query_size + target_size + 1;
    let rows = width + data_height;
    let mut data: Vec<i16> = vec![0; width * rows];
    let ghost pq = padded_pair(query@, target@, width as int, target_size as int).0;
    let ghost pt = padded_pair(query@, target@, width as int, target_size as int).1;
    proof {
        assert(pq.len() == query_size && pt.len() == target_size);
        assert forall|x: int, y: int| 0 <= x < width && 0 <= y < rows implies #[trigger] data@[idx(
            x,
            y,
            width as int,
        )] == if y < 1 || (y == 1 && x < 0) {
            diag(pq, pt, scores, x, y)
        } else {
            0
        } by {
            lemma_idx_bound(x, y, width as int, rows as int);
        }
    }
    let mut y: usize = 1;
    while y < width
        invariant
            1 <= y <= width,
            width == query_size + 1,
            rows == width + data_height,
            data_height == query_size + target_size + 1,
            query@.len() <= query_size,
            target@.len() <= target_size,
            data@.len() == width * rows,
            width * rows <= usize::MAX,
            scores_fit(width - 1, target_size as int, scores),
            filled_upto(data@, pq, pt, scores, width as int, rows as int, 0, y as int),
            pq == padded_pair(query@, target@, width as int, target_size as int).0,
            pt == padded_pair(query@, target@, width as int, target_size as int).1,
        decreases width - y,
    {
        fill_row_scalar(&mut data, query, target, target_size, y, width, rows, scores);
        y += 1;
    }
    while y <= target_size + 1
        invariant
            LANES > 0,
            width <= y,
            y <= target_size + 2 || y == width,
            width == query_size + 1,
            query_size % LANES == 0,
            rows == width + data_height,
            data_height == query_size + target_size + 1,
            query@.len() <= query_size,
            target@.len() <= target_size,
            data@.len() == width * rows,
            width * rows <= usize::MAX,
            scores_fit(width - 1, target_size as int, scores),
            filled_upto(data@, pq, pt, scores, width as int, rows as int, 0, y as int),
            pq == padded_pair(query@, target@, width as int, target_size as int).0,
            pt == padded_pair(query@, target@, width as int, target_size as int).1,
        decreases target_size + 2 - y,
    {
        fill_row_lanes::<LANES>(&mut data, query, target, target_size, y, width, rows, scores);
        y += 1;
    }
    while y < data_height
        invariant
            width <= y,
            y <= data_height || y == target_size + 2,
            width == query_size + 1,
            rows == width + data_height,
            data_height == query_size + target_size + 1,
            query@.len() <= query_size,
            target@.len() <= target_size,
            data@.len() == width * rows,
            width * rows <= usize::MAX,
            scores_fit(width - 1, target_size as int, scores),
            filled_upto(data@, pq, pt, scores, width as int, rows as int, 0, y as int),
            pq == padded_pair(query@, target@, width as int, target_size as int).0,
            pt == padded_pair(query@, target@, width as int, target_size as int).1,
        decreases data_height - y,
    {
        fill_row_scalar(&mut data, query, target, target_size, y, width, rows, scores);
        y += 1;
    }
    proof {
        assert forall|x: int, y2: int| 0 <= x < width && 0 <= y2 < rows implies #[trigger] data@[idx(
            x,
            y2,
            width as int,
        )] == diag(pq, pt, scores, x, y2) by {
        }
        assert forall|x: int, y2: int|
            0 <= x <= query@.len() && x <= y2 <= x + target@.len() implies #[trigger] data@[idx(
            x,
            y2,
            width as int,
        )] == diag(query@, target@, scores, x, y2) by {
            lemma_padded_cell(query@, target@, scores, query_size as int, target_size as int, x, y2 - x);
        }
    }
    data
}

/// Position of the first largest score in `data[lo..hi]`.
pub(crate) fn segment_argmax(data: &[i16], lo: usize, hi: usize) -> (r: usize)
    requires
        lo < hi <= data@.len(),
    ensures
        lo <= r < hi,
        forall|i: int| lo <= i < hi ==> data@[i] <= data@[r as int],
        forall|i: int| lo <= i < r ==> data@[i] < data@[r as int],
{
    let segment = &data[lo..hi];
    let k = argmax(segment);
    proof {
        assert forall|i: int| lo <= i < hi implies #[trigger] data@[i] <= data@[lo + k] by {
            assert(segment@[i - lo] == data@[i]);
        }
        assert forall|i: int| lo <= i < lo + k implies #[trigger] data@[i] < data@[lo + k] by {
            assert(segment@[i - lo] == data@[i]);
        }
    }
    lo + k
}

/// First cell of the surface, in anti-diagonal order, that holds the highest
/// score; returned as `(x, y)` in anti-diagonal coordinates. Each row is scanned
/// over the cells that lie inside both sequences.
pub(crate) fn best_cell_diag(
    data: &[i16],
    query: &[char],
    target: &[char],
    width: usize,
    scores: AlignmentScores,
) -> (r: (usize, usize))
    requires
        width > query@.len(),
        idx(query@.len() as int, (query@.len() + target@.len()) as int, width as int) < data@.len(),
        forall|x2: int, y2: int|
            0 <= x2 <= query@.len() && x2 <= y2 <= x2 + target@.len() ==> #[trigger] data@[idx(
                x2,
                y2,
                width as int,
            )] == diag(query@, target@, scores, x2, y2),
    ensures
        r.0 <= query@.len(),
        r.0 <= r.1 <= r.0 + target@.len(),
        first_best_by_diagonals(query@, target@, scores, r.0 as int, r.1 - r.0),
{
    let ghost q = query@;
    let ghost t = target@;
    let qlen = query.len();
    let tlen = target.len();
    let data_len = data.len();
    proof {
        assert(qlen + tlen < data_len) by (nonlinear_arith)
            requires
                idx(qlen as int, (qlen + tlen) as int, width as int) < data_len,
                width >= 1,
        ;
    }
    let last = qlen + tlen;
    let mut best_x: usize = 0;
    let mut best_y: usize = 0;
    let mut best: i16 = 0;
    let mut y: usize = 1;
    while y <= last
        invariant
            q == query@,
            t == target@,
            qlen == q.len(),
            tlen == t.len(),
            last == qlen + tlen,
            width > qlen,
            1 <= y <= last + 1,
            idx(qlen as int, last as int, width as int) < data@.len(),
            data_len == data@.len(),
            last < data_len,
            forall|x2: int, y2: int|
                0 <= x2 <= q.len() && x2 <= y2 <= x2 + t.len() ==> #[trigger] data@[idx(
                    x2,
                    y2,
                    width as int,
                )] == diag(q, t, scores, x2, y2),
            best_x <= qlen,
            best_x <= best_y <= best_x + tlen,
            best_y < y,
            best == cell(q, t, scores, best_x as int, best_y - best_x),
            forall|x2: int, j2: int|
                0 <= x2 <= q.len() && 0 <= j2 <= t.len() && x2 + j2 < y ==> #[trigger] cell(
                    q,
                    t,
                    scores,
                    x2,
                    j2,
                ) <= best,
            forall|x2: int, j2: int|
                0 <= x2 <= q.len() && 0 <= j2 <= t.len() && (x2 + j2 < best_y || (x2 + j2
                    == best_y && x2 < best_x)) ==> #[trigger] cell(q, t, scores, x2, j2) < best,
        decreases last + 1 - y,
    {
        let lo: usize = if y > tlen { y - tlen } else { 1 };
        let hi: usize = if y - 1 < qlen { y } else { qlen + 1 };
        if lo < hi {
            proof {
                lemma_idx_strict(lo as int, y as int, hi as int, y as int, width as int);
                lemma_idx_monotone(hi - 1, y as int, qlen as int, last as int, width as int);
            }
            let k = segment_argmax(data, index(lo, y, width), index(hi - 1, y, width) + 1);
            let x = k - y * width;
            proof {
                assert(idx(x as int, y as int, width as int) == k);
                assert(data@[k as int] == diag(q, t, scores, x as int, y as int));
            }
            if data[k] > best {
                proof {
                    assert forall|x2: int, j2: int|
                        0 <= x2 <= q.len() && 0 <= j2 <= t.len() && x2 + j2 == y implies cell(
                        q,
                        t,
                        scores,
                        x2,
                        j2,
                    ) <= data@[k as int] && (x2 < x ==> cell(q, t, scores, x2, j2) < data@[k as int]) by {
                        if j2 == 0 {
                            lemma_cell_nonneg(q, t, scores, x as int, y - x);
                        } else if x2 == 0 {
                            lemma_cell_nonneg(q, t, scores, x as int, y - x);
                        } else {
                            assert(data@[idx(x2, y as int, width as int)] == diag(q, t, scores, x2, y as int));
                        }
                    }
                }
                best_x = x;
                best_y = y;
                best = data[k];
            } else {
                proof {
                    assert forall|x2: int, j2: int|
                        0 <= x2 <= q.len() && 0 <= j2 <= t.len() && x2 + j2 == y implies cell(
                        q,
                        t,
                        scores,
                        x2,
                        j2,
                    ) <= best by {
                        if j2 == 0 || x2 == 0 {
                        } else {
                            assert(data@[idx(x2, y as int, width as int)] == diag(q, t, scores, x2, y as int));
                        }
                    }
                }
            }
        } else {
            proof {
                assert forall|x2: int, j2: int|
                    0 <= x2 <= q.len() && 0 <= j2 <= t.len() && x2 + j2 == y implies cell(
                    q,
                    t,
                    scores,
                    x2,
                    j2,
                ) <= best by {
                    lemma_cell_nonneg(q, t, scores, best_x as int, best_y - best_x);
                }
            }
        }
        y += 1;
    }
    proof {
        assert(is_best(q, t, scores, best_x as int, best_y - best_x));
    }
    (best_x, best_y)
}

} // verus!
