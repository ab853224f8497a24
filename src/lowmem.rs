//! Ring-buffered wavefront: only a window of anti-diagonal rows is kept, the
//! best cell is tracked row by row, and each new best is traced back at once,
//! before the rows it needs are overwritten.
use vstd::prelude::*;
use crate::algorithm::{recurrence_step, substitution_of, traceback_wrapping};
use crate::model::{
    cap, cell, diag, disjoint_alphabets, first_best_by_diagonals, gain, idx, is_best, lemma_cap_monotone,
    lemma_cell_fits, lemma_cell_nonneg, lemma_cell_zero, lemma_idx_bound, lemma_idx_distinct,
    lemma_idx_strict, lemma_padded_cell, lemma_trace_rows_bound,
    reported_from, ring_fits, ring_rows, scores_fit, symbol_at, trace, wavefront_fits,
    AlignmentScores, Symbol,
};
use crate::utils::{index, roundup};
use crate::wavefront::{padded_match, padded_pair, segment_argmax};
use crate::{find_alignment_simd, AlignResult};

verus! {

/// The rows of the window that ends at row `y` (rows `y - h + 1 ..= y`), up to
/// column `x` of row `y`, hold the surface over `pq` and `pt`; row `r` is kept
/// in ring row `r % h`.
pub open spec fn ring_filled(
    data: Seq<i16>,
    pq: Seq<Symbol>,
    pt: Seq<Symbol>,
    s: AlignmentScores,
    width: int,
    h: int,
    x: int,
    y: int,
) -> bool {
    forall|x2: int, y2: int|
        0 <= x2 < width && 0 <= y2 && y - h < y2 && (y2 < y || (y2 == y && x2 < x))
            ==> #[trigger] data[idx(x2, y2 % h, width)] == diag(pq, pt, s, x2, y2)
}

/// Column zero of every ring row is zero.
pub open spec fn ring_border(data: Seq<i16>, width: int, h: int) -> bool {
    forall|r: int| 0 <= r < h ==> #[trigger] data[idx(0, r, width)] == 0
}

proof fn lemma_ring_read(
    data: Seq<i16>,
    pq: Seq<Symbol>,
    pt: Seq<Symbol>,
    s: AlignmentScores,
    width: int,
    h: int,
    x: int,
    y: int,
    x2: int,
    y2: int,
)
    requires
        ring_filled(data, pq, pt, s, width, h, x, y),
        0 <= x2 < width,
        0 <= y2,
        y - h < y2,
        y2 < y || (y2 == y && x2 < x),
    ensures
        data[idx(x2, y2 % h, width)] == diag(pq, pt, s, x2, y2),
{
}

proof fn lemma_ring_advance(
    data: Seq<i16>,
    pq: Seq<Symbol>,
    pt: Seq<Symbol>,
    s: AlignmentScores,
    width: int,
    h: int,
    y: int,
)
    requires
        ring_filled(data, pq, pt, s, width, h, width, y),
    ensures
        ring_filled(data, pq, pt, s, width, h, 0, y + 1),
{
}

proof fn lemma_ring_rows_distinct(y1: int, y2: int, h: int)
    requires
        h > 0,
        0 <= y1,
        0 <= y2,
        y2 - h < y1 < y2,
    ensures
        y1 % h != y2 % h,
        0 <= y1 % h < h,
        0 <= y2 % h < h,
{
    assert(y1 % h != y2 % h && 0 <= y1 % h < h && 0 <= y2 % h < h) by (nonlinear_arith)
        requires
            h > 0,
            0 <= y1,
            0 <= y2,
            y2 - h < y1 < y2,
    ;
}

/// Stores `v` as cell `(x, y)`, which the surface gives that value, in ring row
/// `y % h`.
fn ring_store(
    data: &mut Vec<i16>,
    v: i16,
    x: usize,
    y: usize,
    width: usize,
    h: usize,
    Ghost(pq): Ghost<Seq<Symbol>>,
    Ghost(pt): Ghost<Seq<Symbol>>,
    scores: AlignmentScores,
)
    requires
        old(data)@.len() == width * h,
        width * h <= usize::MAX,
        h >= 3,
        1 <= x < width,
        v == diag(pq, pt, scores, x as int, y as int),
        ring_filled(old(data)@, pq, pt, scores, width as int, h as int, x as int, y as int),
        ring_border(old(data)@, width as int, h as int),
    ensures
        final(data)@.len() == old(data)@.len(),
        ring_filled(final(data)@, pq, pt, scores, width as int, h as int, x + 1, y as int),
        ring_border(final(data)@, width as int, h as int),
{
    let ghost before = data@;
    let row = y % h;
    proof {
        lemma_idx_bound(x as int, row as int, width as int, h as int);
    }
    data.set(index(x, row, width), v);
    proof {
        assert forall|x2: int, y2: int|
            0 <= x2 < width && 0 <= y2 && y - h < y2 && (y2 < y || (y2 == y && x2 < x + 1)) implies #[trigger] data@[idx(
            x2,
            y2 % (h as int),
            width as int,
        )] == diag(pq, pt, scores, x2, y2) by {
            if y2 < y {
                lemma_ring_rows_distinct(y2, y as int, h as int);
                lemma_idx_distinct(x2, y2 % (h as int), x as int, row as int, width as int);
                lemma_idx_bound(x2, y2 % (h as int), width as int, h as int);
                assert(data@[idx(x2, y2 % (h as int), width as int)] == before[idx(x2, y2 % (h as int), width as int)]);
            } else if x2 != x {
                lemma_idx_distinct(x2, row as int, x as int, row as int, width as int);
                lemma_idx_bound(x2, row as int, width as int, h as int);
            }
        }
        assert forall|r: int| 0 <= r < h implies #[trigger] data@[idx(0, r, width as int)] == 0 by {
            lemma_idx_distinct(0, r, x as int, row as int, width as int);
            lemma_idx_bound(0, r, width as int, h as int);
            assert(data@[idx(0, r, width as int)] == before[idx(0, r, width as int)]);
        }
    }
}

/// Computes cell `(x, y)` from ring rows `y - 1` and `y - 2` and stores it.
fn ring_set_cell(
    data: &mut Vec<i16>,
    is_match: bool,
    x: usize,
    y: usize,
    width: usize,
    h: usize,
    Ghost(pq): Ghost<Seq<Symbol>>,
    Ghost(pt): Ghost<Seq<Symbol>>,
    scores: AlignmentScores,
)
    requires
        width == pq.len() + 1,
        old(data)@.len() == width * h,
        width * h <= usize::MAX,
        h >= 3,
        1 <= x < width,
        x < y,
        y - x <= pt.len(),
        scores_fit(pq.len() as int, pt.len() as int, scores),
        is_match == (pq[x - 1] == pt[y - x - 1]),
        ring_filled(old(data)@, pq, pt, scores, width as int, h as int, x as int, y as int),
        ring_border(old(data)@, width as int, h as int),
    ensures
        final(data)@.len() == old(data)@.len(),
        ring_filled(final(data)@, pq, pt, scores, width as int, h as int, x + 1, y as int),
        ring_border(final(data)@, width as int, h as int),
{
    let r1 = (y - 1) % h;
    let r2 = (y - 2) % h;
    proof {
        lemma_cell_fits(pq, pt, scores, x as int, y - x, pq.len() as int, pt.len() as int);
        lemma_idx_bound(x as int, r1 as int, width as int, h as int);
        lemma_idx_bound(x - 1, r1 as int, width as int, h as int);
        lemma_idx_bound(x - 1, r2 as int, width as int, h as int);
        assert(data@[idx(x as int, r1 as int, width as int)] == diag(pq, pt, scores, x as int, y - 1));
        assert(data@[idx(x - 1, r1 as int, width as int)] == diag(pq, pt, scores, x - 1, y - 1));
        assert(data@[idx(x - 1, r2 as int, width as int)] == diag(pq, pt, scores, x - 1, y - 2));
    }
    let skip_query = data[index(x, r1, width)];
    let skip_target = data[index(x - 1, r1, width)];
    let take = data[index(x - 1, r2, width)];
    let sub = substitution_of(is_match, scores);
    let v = recurrence_step(skip_query, skip_target, take, sub, scores.gap);
    ring_store(data, v, x, y, width, h, Ghost(pq), Ghost(pt), scores);
}

/// Computes row `y` one cell at a time; cells outside the padded sequences are
/// cleared, since their ring row still holds an older row.
fn ring_fill_row_scalar(
    data: &mut Vec<i16>,
    query: &[char],
    target: &[char],
    target_size: usize,
    y: usize,
    width: usize,
    h: usize,
    scores: AlignmentScores,
)
    requires
        query@.len() < width,
        target@.len() <= target_size,
        old(data)@.len() == width * h,
        width * h <= usize::MAX,
        h >= 3,
        1 <= y,
        scores_fit(width - 1, target_size as int, scores),
        ring_filled(
            old(data)@,
            padded_pair(query@, target@, width as int, target_size as int).0,
            padded_pair(query@, target@, width as int, target_size as int).1,
            scores,
            width as int,
            h as int,
            0,
            y as int,
        ),
        ring_border(old(data)@, width as int, h as int),
    ensures
        final(data)@.len() == old(data)@.len(),
        ring_filled(
            final(data)@,
            padded_pair(query@, target@, width as int, target_size as int).0,
            padded_pair(query@, target@, width as int, target_size as int).1,
            scores,
            width as int,
            h as int,
            width as int,
            y as int,
        ),
        ring_border(final(data)@, width as int, h as int),
{
    let ghost pq = padded_pair(query@, target@, width as int, target_size as int).0;
    let ghost pt = padded_pair(query@, target@, width as int, target_size as int).1;
    assert(pq.len() == width - 1 && pt.len() == target_size);
    proof {
        let d = data@;
        assert forall|x2: int, y2: int|
            0 <= x2 < width && 0 <= y2 && y - h < y2 && (y2 < y || (y2 == y && x2 < 1)) implies #[trigger] d[idx(
            x2,
            y2 % (h as int),
            width as int,
        )] == diag(pq, pt, scores, x2, y2) by {
            if y2 == y {
                assert(0 <= y2 % (h as int) < h) by (nonlinear_arith)
                    requires
                        h > 0,
                        y2 >= 0,
                ;
            }
        }
    }
    let mut x: usize = 1;
    while x < width
        invariant
            1 <= x <= width,
            pq == padded_pair(query@, target@, width as int, target_size as int).0,
            pt == padded_pair(query@, target@, width as int, target_size as int).1,
            pq.len() == width - 1,
            pt.len() == target_size,
            data@.len() == width * h,
            width * h <= usize::MAX,
            h >= 3,
            1 <= y,
            scores_fit(width - 1, target_size as int, scores),
            ring_filled(data@, pq, pt, scores, width as int, h as int, x as int, y as int),
            ring_border(data@, width as int, h as int),
        decreases width - x,
    {
        if x < y && y - x <= target_size {
            let is_match = padded_match(query, target, x, y - x);
            ring_set_cell(data, is_match, x, y, width, h, Ghost(pq), Ghost(pt), scores);
        } else {
            ring_store(data, 0, x, y, width, h, Ghost(pq), Ghost(pt), scores);
        }
        x += 1;
    }
}

/// Computes row `y` in batches of `LANES` cells, into ring row `y % h`. Every cell of the row lies
/// inside the padded sequences. A batch first compares its query symbols with
/// the target symbols on its diagonal, then combines the two previous rows.
fn ring_fill_row_lanes<const LANES: usize>(
    data: &mut Vec<i16>,
    query: &[char],
    target: &[char],
    target_size: usize,
    y: usize,
    width: usize,
    h: usize,
    scores: AlignmentScores,
)
    requires
        LANES > 0,
        query@.len() < width,
        (width - 1) % (LANES as int) == 0,
        target@.len() <= target_size,
        width <= y <= target_size + 1,
        h >= 3,
        old(data)@.len() == width * h,
        width * h <= usize::MAX,
        scores_fit(width - 1, target_size as int, scores),
        ring_filled(
            old(data)@,
            padded_pair(query@, target@, width as int, target_size as int).0,
            padded_pair(query@, target@, width as int, target_size as int).1,
            scores,
            width as int,
            h as int,
            0,
            y as int,
        ),
        ring_border(old(data)@, width as int, h as int),
    ensures
        final(data)@.len() == old(data)@.len(),
        ring_filled(
            final(data)@,
            padded_pair(query@, target@, width as int, target_size as int).0,
            padded_pair(query@, target@, width as int, target_size as int).1,
            scores,
            width as int,
            h as int,
            width as int,
            y as int,
        ),
        ring_border(final(data)@, width as int, h as int),
{
    let ghost pq = padded_pair(query@, target@, width as int, target_size as int).0;
    let ghost pt = padded_pair(query@, target@, width as int, target_size as int).1;
    assert(pq.len() == width - 1 && pt.len() == target_size);
    let lanes = (width - 1) / LANES;
    proof {
        assert(lanes * LANES == width - 1) by (nonlinear_arith)
            requires
                lanes == (width - 1) / (LANES as int),
                (width - 1) % (LANES as int) == 0,
                LANES > 0,
        ;
    }
    let mut start_x: usize = 1;
    let mut lane_index: usize = 0;
    while lane_index < lanes
        invariant
            LANES > 0,
            lanes * LANES == width - 1,
            lane_index <= lanes,
            start_x == 1 + lane_index * LANES,
            pq == padded_pair(query@, target@, width as int, target_size as int).0,
            pt == padded_pair(query@, target@, width as int, target_size as int).1,
            pq.len() == width - 1,
            pt.len() == target_size,
            width <= y <= target_size + 1,
            h >= 3,
            data@.len() == width * h,
            width * h <= usize::MAX,
            scores_fit(width - 1, target_size as int, scores),
            ring_filled(data@, pq, pt, scores, width as int, h as int, start_x as int, y as int),
            ring_border(data@, width as int, h as int),
        decreases lanes - lane_index,
    {
        proof {
            assert(lane_index * LANES + LANES <= lanes * LANES) by (nonlinear_arith)
                requires
                    lane_index < lanes,
                    LANES > 0,
            ;
        }
        let mut mask: Vec<bool> = Vec::new();
        let mut i: usize = 0;
        while i < LANES
            invariant
                i <= LANES,
                start_x + LANES <= width,
                1 <= start_x,
                width <= y,
                mask@.len() == i,
                forall|k: int|
                    0 <= k < i ==> mask@[k] == (symbol_at(query@, start_x + k - 1, Symbol::QueryPad)
                        == symbol_at(target@, y - start_x - k - 1, Symbol::TargetPad)),
            decreases LANES - i,
        {
            mask.push(padded_match(query, target, start_x + i, y - start_x - i));
            i += 1;
        }
        let mut i: usize = 0;
        while i < LANES
            invariant
                i <= LANES,
                start_x + LANES <= width,
                1 <= start_x,
                mask@.len() == LANES,
                forall|k: int|
                    0 <= k < LANES ==> mask@[k] == (symbol_at(query@, start_x + k - 1, Symbol::QueryPad)
                        == symbol_at(target@, y - start_x - k - 1, Symbol::TargetPad)),
                pq == padded_pair(query@, target@, width as int, target_size as int).0,
                pt == padded_pair(query@, target@, width as int, target_size as int).1,
                pq.len() == width - 1,
                pt.len() == target_size,
                width <= y <= target_size + 1,
                h >= 3,
                data@.len() == width * h,
                width * h <= usize::MAX,
                scores_fit(width - 1, target_size as int, scores),
                ring_filled(data@, pq, pt, scores, width as int, h as int, start_x + i, y as int),
                ring_border(data@, width as int, h as int),
            decreases LANES - i,
        {
            let x = start_x + i;
            proof {
                assert(pq[x - 1] == symbol_at(query@, x - 1, Symbol::QueryPad));
                assert(pt[y - x - 1] == symbol_at(target@, y - x - 1, Symbol::TargetPad));
            }
            ring_set_cell(data, mask[i], x, y, width, h, Ghost(pq), Ghost(pt), scores);
            i += 1;
        }
        start_x += LANES;
        lane_index += 1;
        proof {
            assert(start_x == 1 + lane_index * LANES) by (nonlinear_arith)
                requires
                    start_x == 1 + (lane_index - 1) * LANES + LANES,
            ;
        }
    }
    proof {
        assert(start_x == width);
    }
}

/// Aligns like `find_alignment_simd`, keeping only a ring of anti-diagonal rows
/// whose height depends on the query and the scores, not on the target. Each
/// row's best real cell is compared with the best so far; a new best is traced
/// back at once from the ring. Short targets (under twice the query), an empty
/// query and a non-negative gap, under which scores need not fall back to zero
/// within the ring, are aligned with the full surface instead.
pub fn find_alignment_simd_lowmem<const LANES: usize>(
    query: &[char],
    target: &[char],
    scores: AlignmentScores,
) -> (r: AlignResult)
    requires
        wavefront_fits(query@.len() as int, target@.len() as int, LANES as int, scores),
        ring_fits(query@.len() as int, LANES as int),
    ensures
        exists|x: int, j: int|
            first_best_by_diagonals(query@, target@, scores, x, j) && reported_from(
                query@,
                target@,
                scores,
                x,
                j,
                r.0@,
                r.1@,
                r.2 as int,
            ) && r.3 == x && r.4 == x + j,
        r.2 >= 0,
        query@.len() == 0 || target@.len() == 0 || (disjoint_alphabets(query@, target@)
            && scores.gap <= 0 && scores.miss <= 0) ==> r.0@.len() == 0 && r.1@.len() == 0
            && r.2 == 0,
{
    if query.len() == 0 || scores.gap >= 0 || target.len() < query.len() || target.len() - query.len()
        < query.len() {
        return find_alignment_simd::<LANES>(query, target, scores);
    }
    let ghost q = query@;
    let ghost t = target@;
    let qlen = query.len();
    let tlen = target.len();
    let query_size = roundup(qlen, LANES);
    let width = query_size + 1;
    let target_size = roundup(tlen, LANES);
    proof {
        assert(2 * query_size + target_size + 2 <= usize::MAX && 2 * query_size + i16::MAX + 2 <= usize::MAX)
            by (nonlinear_arith)
            requires
                (query_size + 1) * (2 * query_size + target_size + 2) <= usize::MAX,
                (query_size + 1) * (2 * query_size + i16::MAX + 2) <= usize::MAX,
        ;
    }
    let best_step: i16 = if scores.match_score >= scores.miss { scores.match_score } else { scores.miss };
    let step_gain: usize = if best_step > 0 { best_step as usize } else { 0 };
    let gap_cost: usize = (0i32 - scores.gap as i32) as usize;
    proof {
        assert(step_gain == gain(scores));
        lemma_cap_monotone(query_size as int, tlen as int, query_size as int, target_size as int, scores);
        assert(query_size * step_gain <= i16::MAX);
    }
    let wrapping_height = query_size + (query_size * step_gain) / gap_cost;
    proof {
        assert((query_size * step_gain) / (gap_cost as int) <= query_size * step_gain) by (nonlinear_arith)
            requires
                gap_cost >= 1,
                query_size * step_gain >= 0,
        ;
    }
    let h = wrapping_height + width + 1;
    proof {
        assert(h == ring_rows(query_size as int, scores));
        assert(width * h <= usize::MAX) by (nonlinear_arith)
            requires
                (query_size + 1) * (2 * query_size + i16::MAX + 2) <= usize::MAX,
                width == query_size + 1,
                h <= 2 * query_size + i16::MAX + 2,
        ;
    }
    let mut data: Vec<i16> = vec![0; width * h];
    let ghost pq = padded_pair(q, t, width as int, tlen as int).0;
    let ghost pt = padded_pair(q, t, width as int, tlen as int).1;
    proof {
        assert(pq.len() == query_size && pt.len() == tlen);
        assert forall|r: int| 0 <= r < h implies #[trigger] data@[idx(0, r, width as int)] == 0 by {
            lemma_idx_bound(0, r, width as int, h as int);
        }
        assert forall|x2: int, y2: int|
            0 <= x2 < width && 0 <= y2 && 1 - h < y2 && (y2 < 1 || (y2 == 1 && x2 < 0)) implies #[trigger] data@[idx(
            x2,
            y2 % (h as int),
            width as int,
        )] == diag(pq, pt, scores, x2, y2) by {
            assert(y2 == 0);
            assert(y2 % (h as int) == 0) by (nonlinear_arith)
                requires
                    y2 == 0,
                    h > 0,
            ;
            lemma_idx_bound(x2, 0, width as int, h as int);
        }
    }
    let last = qlen + tlen;
    let mut best_x: usize = 0;
    let mut best_y: usize = 0;
    let mut best: i16 = 0;
    let mut query_result: Vec<char> = Vec::new();
    let mut target_result: Vec<char> = Vec::new();
    let mut y: usize = 1;
    while y <= last
        invariant
            q == query@,
            t == target@,
            qlen == q.len(),
            tlen == t.len(),
            last == qlen + tlen,
            1 <= qlen <= query_size,
            width == query_size + 1,
            (width - 1) % (LANES as int) == 0,
            LANES > 0,
            h == ring_rows(query_size as int, scores),
            h >= 3,
            scores.gap < 0,
            data@.len() == width * h,
            width * h <= usize::MAX,
            scores_fit(width - 1, tlen as int, scores),
            pq == padded_pair(q, t, width as int, tlen as int).0,
            pt == padded_pair(q, t, width as int, tlen as int).1,
            1 <= y <= last + 1,
            last < usize::MAX,
            ring_filled(data@, pq, pt, scores, width as int, h as int, 0, y as int),
            ring_border(data@, width as int, h as int),
            best_x <= qlen,
            best_x <= best_y <= best_x + tlen,
            best_y < y,
            best == cell(q, t, scores, best_x as int, best_y - best_x),
            query_result@ == trace(q, t, scores, best_x as int, best_y - best_x).0,
            target_result@ == trace(q, t, scores, best_x as int, best_y - best_x).1,
            forall|x2: int, j2: int|
                0 <= x2 <= q.len() && 0 <= j2 <= t.len() && x2 + j2 < y ==> #[trigger] cell(
                    q,
                    t,
                    scores,
                    x2,
                    j2,
                ) <= best,
            forall|x2: int, j2: int|
                0 <= x2 <= q.len() && 0 <= j2 <= t.len() && (x2 + j2 < best_y || (x2 + j2
                    == best_y && x2 < best_x)) ==> #[trigger] cell(q, t, scores, x2, j2) < best,
        decreases last + 1 - y,
    {
        if width <= y && y <= tlen + 1 {
            ring_fill_row_lanes::<LANES>(&mut data, query, target, tlen, y, width, h, scores);
        } else {
            ring_fill_row_scalar(&mut data, query, target, tlen, y, width, h, scores);
        }
        let row = y % h;
        proof {
            assert(0 <= row < h);
            assert forall|x2: int, y2: int|
                0 <= x2 <= q.len() && x2 <= y2 <= x2 + t.len() && y2 <= y && y < y2 + h implies #[trigger] data@[idx(
                x2,
                y2 % (h as int),
                width as int,
            )] == diag(q, t, scores, x2, y2) by {
                lemma_ring_read(data@, pq, pt, scores, width as int, h as int, width as int, y as int, x2, y2);
                lemma_padded_cell(q, t, scores, query_size as int, tlen as int, x2, y2 - x2);
            }
        }
        let lo: usize = if y > tlen { y - tlen } else { 1 };
        let hi: usize = if y - 1 < qlen { y } else { qlen + 1 };
        if lo < hi {
            proof {
                lemma_idx_strict(lo as int, row as int, hi as int, row as int, width as int);
                lemma_idx_bound(hi - 1, row as int, width as int, h as int);
            }
            let k = segment_argmax(data.as_slice(), index(lo, row, width), index(hi - 1, row, width) + 1);
            let x = k - row * width;
            proof {
                assert(idx(x as int, row as int, width as int) == k);
                assert(data@[k as int] == diag(q, t, scores, x as int, y as int));
            }
            if data[k] > best {
                proof {
                    assert forall|x2: int, j2: int|
                        0 <= x2 <= q.len() && 0 <= j2 <= t.len() && x2 + j2 == y implies cell(
                        q,
                        t,
                        scores,
                        x2,
                        j2,
                    ) <= data@[k as int] && (x2 < x ==> cell(q, t, scores, x2, j2) < data@[k as int]) by {
                        if j2 == 0 || x2 == 0 {
                            lemma_cell_nonneg(q, t, scores, x as int, y - x);
                        } else {
                            assert(data@[idx(x2, row as int, width as int)] == diag(q, t, scores, x2, y as int));
                        }
                    }
                    lemma_trace_rows_bound(q, t, scores, x as int, y - x, query_size as int);
                    assert((data@.len() as int) % (width as int) == 0 && (data@.len() as int) / (width as int) == h) by (nonlinear_arith)
                        requires
                            data@.len() == width * h,
                            width > 0,
                    ;
                }
                best_x = x;
                best_y = y;
                best = data[k];
                query_result = Vec::new();
                target_result = Vec::new();
                traceback_wrapping(
                    data.as_slice(),
                    query,
                    target,
                    x,
                    y,
                    width,
                    &mut query_result,
                    &mut target_result,
                    scores,
                );
            } else {
                proof {
                    assert forall|x2: int, j2: int|
                        0 <= x2 <= q.len() && 0 <= j2 <= t.len() && x2 + j2 == y implies cell(
                        q,
                        t,
                        scores,
                        x2,
                        j2,
                    ) <= best by {
                        if j2 == 0 || x2 == 0 {
                        } else {
                            assert(data@[idx(x2, row as int, width as int)] == diag(q, t, scores, x2, y as int));
                        }
                    }
                }
            }
        } else {
            proof {
                assert forall|x2: int, j2: int|
                    0 <= x2 <= q.len() && 0 <= j2 <= t.len() && x2 + j2 == y implies cell(
                    q,
                    t,
                    scores,
                    x2,
                    j2,
                ) <= best by {
                    lemma_cell_nonneg(q, t, scores, best_x as int, best_y - best_x);
                }
            }
        }
        proof {
            lemma_ring_advance(data@, pq, pt, scores, width as int, h as int, y as int);
        }
        y += 1;
    }
    proof {
        assert(is_best(q, t, scores, best_x as int, best_y - best_x));
        assert(first_best_by_diagonals(q, t, scores, best_x as int, best_y - best_x));
        lemma_cell_nonneg(q, t, scores, best_x as int, best_y - best_x);
        if q.len() == 0 || t.len() == 0 || (disjoint_alphabets(q, t) && scores.gap <= 0 && scores.miss <= 0) {
            lemma_cell_zero(q, t, scores, best_x as int, best_y - best_x);
        }
        assert(reported_from(q, t, scores, best_x as int, best_y - best_x, query_result@, target_result@, best as int));
    }
    (query_result, target_result, best, best_x, best_y)
}

/// Whether `find_alignment_simd_lowmem::<LANES>` accepts sequences of these
/// lengths with these scores: the padded surface, the ring and every score fit
/// their integer types. The other builders accept them too.
pub fn lowmem_fits<const LANES: usize>(query_len: usize, target_len: usize, scores: AlignmentScores) -> (r: bool)
    ensures
        r == (wavefront_fits(query_len as int, target_len as int, LANES as int, scores) && ring_fits(
            query_len as int,
            LANES as int,
        )),
{
    if LANES == 0 || query_len > usize::MAX - LANES || target_len > usize::MAX - LANES {
        return false;
    }
    let limit = usize::MAX as u128;
    let qs = roundup(query_len, LANES) as u128;
    let ts = roundup(target_len, LANES) as u128;
    if 2 * qs + ts + 2 > limit || 2 * qs + 32769 > limit {
        proof {
            assert((qs + 1) * (2 * qs + ts + 2) > usize::MAX || (qs + 1) * (2 * qs + 32769) > usize::MAX)
                by (nonlinear_arith)
                requires
                    2 * qs + ts + 2 > usize::MAX || 2 * qs + 32769 > usize::MAX,
                    qs >= 0,
            ;
        }
        return false;
    }
    proof {
        assert((qs + 1) * (2 * qs + ts + 2) <= 0x1_0000_0000_0000_0000 * 0xffff_ffff_ffff_ffff) by (nonlinear_arith)
            requires
                qs + 1 <= 0x1_0000_0000_0000_0000,
                2 * qs + ts + 2 <= 0xffff_ffff_ffff_ffff,
                qs >= 0,
        ;
        assert((qs + 1) * (2 * qs + 32769) <= 0x1_0000_0000_0000_0000 * 0xffff_ffff_ffff_ffff) by (nonlinear_arith)
            requires
                qs + 1 <= 0x1_0000_0000_0000_0000,
                2 * qs + 32769 <= 0xffff_ffff_ffff_ffff,
                qs >= 0,
        ;
    }
    if (qs + 1) * (2 * qs + ts + 2) > limit || (qs + 1) * (2 * qs + 32769) > limit {
        return false;
    }
    let best_step: i16 = if scores.match_score >= scores.miss { scores.match_score } else { scores.miss };
    let step: u128 = if best_step > 0 { best_step as u128 } else { 0 };
    let step_gain: u128 = if scores.gap > 0 && scores.gap as u128 > step { scores.gap as u128 } else { step };
    let span: u128 = if scores.gap <= 0 { qs } else { qs + ts };
    proof {
        assert(step_gain == crate::model::gain(scores));
        assert(span * step_gain <= 0xffff_ffff_ffff_ffff * 0x7fff) by (nonlinear_arith)
            requires
                span <= 0xffff_ffff_ffff_ffff,
                step_gain <= 0x7fff,
        ;
        assert(cap(qs as int, ts as int, scores) == span * step_gain);
    }
    span * step_gain <= 32767
}

} // verus!
