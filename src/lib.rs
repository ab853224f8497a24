//! Local alignment of a short query against a long target: score surfaces in
//! row-major, anti-diagonal, batched and ring-buffered form, and the traceback
//! that turns the best cell into the aligned sequences.
//!
//! Every builder is proved to compute the recurrence `model::cell` exactly, and
//! every aligner to report the walk `model::trace` from the first best cell of
//! its search order, with that cell's score. Scores are kept in `i16`: the
//! aligners accept sequences and scores for which no cell can leave that range
//! (`model::scores_fit`; `lowmem_fits` tests it at run time), so no sum is
//! clamped or wrapped. The ring of the low-memory aligner is tall enough for
//! every walk it starts (`model::lemma_trace_rows_bound`).
use vstd::prelude::*;

pub mod model;
pub mod utils;
pub mod algorithm;
pub mod wavefront;
pub mod lowmem;
pub mod fasta;
pub mod batching;

use crate::algorithm::{
    argmax, string_scores_parallel, string_scores_sequential, string_scores_straight, traceback, traceback_straight,
};
use crate::model::{
    cell, diag, disjoint_alphabets, first_best_by_diagonals, first_best_by_rows, idx,
    lemma_cell_nonneg, lemma_cell_zero, lemma_idx_bound, lemma_idx_strict, reported_from,
    scores_fit, wavefront_fits, AlignmentScores,
};
use crate::utils::{coord, index, roundup};

pub use crate::lowmem::lowmem_fits;
use crate::wavefront::{best_cell_diag, string_scores_simd};

verus! {

/// Aligned query, aligned target, score, and the column and row of the cell
/// where the alignment ends.
pub type AlignResult = (Vec<char>, Vec<char>, i16, usize, usize);

/// Aligns with the row-major surface; the walk starts at the first best cell in
/// row order.
pub fn find_alignment_sequential_straight(
    query: &[char],
    target: &[char],
    scores: AlignmentScores,
) -> (r: AlignResult)
    requires
        (query@.len() + 1) * (target@.len() + 1) <= usize::MAX,
        scores_fit(query@.len() as int, target@.len() as int, scores),
    ensures
        exists|x: int, j: int|
            first_best_by_rows(query@, target@, scores, x, j) && reported_from(
                query@,
                target@,
                scores,
                x,
                j,
                r.0@,
                r.1@,
                r.2 as int,
            ) && r.3 == x && r.4 == j,
        r.2 >= 0,
        query@.len() == 0 || target@.len() == 0 || (disjoint_alphabets(query@, target@)
            && scores.gap <= 0 && scores.miss <= 0) ==> r.0@.len() == 0 && r.1@.len() == 0
            && r.2 == 0,
{
    proof {
        assert(query@.len() + 1 <= usize::MAX && (query@.len() + 1) * (target@.len() + 1) >= 1)
            by (nonlinear_arith)
            requires
                (query@.len() + 1) * (target@.len() + 1) <= usize::MAX,
        ;
    }
    let data = string_scores_straight(query, target, scores);
    let width = query.len() + 1;
    let ghost q = query@;
    let ghost t = target@;
    let ghost height: int = t.len() as int + 1;
    let max_index = argmax(data.as_slice());
    let (x, y) = coord(max_index, width);
    proof {
        assert(y < height) by (nonlinear_arith)
            requires
                idx(x as int, y as int, width as int) == max_index,
                max_index < width * height,
                x < width,
        ;
        assert(data@[max_index as int] == cell(q, t, scores, x as int, y as int));
        assert forall|x2: int, j2: int| 0 <= x2 <= q.len() && 0 <= j2 <= t.len() implies #[trigger] cell(
            q,
            t,
            scores,
            x2,
            j2,
        ) <= cell(q, t, scores, x as int, y as int) by {
            lemma_idx_bound(x2, j2, width as int, height);
            assert(data@[idx(x2, j2, width as int)] == cell(q, t, scores, x2, j2));
        }
        assert forall|x2: int, j2: int|
            0 <= x2 <= q.len() && 0 <= j2 <= t.len() && (j2 < y || (j2 == y && x2 < x)) implies #[trigger] cell(
            q,
            t,
            scores,
            x2,
            j2,
        ) < cell(q, t, scores, x as int, y as int) by {
            lemma_idx_strict(x2, j2, x as int, y as int, width as int);
            assert(data@[idx(x2, j2, width as int)] == cell(q, t, scores, x2, j2));
        }
        assert(first_best_by_rows(q, t, scores, x as int, y as int));
        lemma_idx_bound(q.len() as int, t.len() as int, width as int, height);
    }
    let mut query_result: Vec<char> = Vec::new();
    let mut target_result: Vec<char> = Vec::new();
    traceback_straight(
        data.as_slice(),
        query,
        target,
        x,
        y,
        width,
        &mut query_result,
        &mut target_result,
        scores,
    );
    let score = data[max_index];
    proof {
        lemma_cell_nonneg(q, t, scores, x as int, y as int);
        if q.len() == 0 || t.len() == 0 || (disjoint_alphabets(q, t) && scores.gap <= 0 && scores.miss <= 0) {
            lemma_cell_zero(q, t, scores, x as int, y as int);
        }
        assert(reported_from(q, t, scores, x as int, y as int, query_result@, target_result@, score as int));
    }
    (query_result, target_result, score, x, y)
}

/// Aligns with the anti-diagonal surface filled one cell at a time; the walk
/// starts at the first best cell in anti-diagonal order.
pub fn find_alignment_sequential(
    query: &[char],
    target: &[char],
    scores: AlignmentScores,
) -> (r: AlignResult)
    requires
        (query@.len() + 1) * (2 * query@.len() + target@.len() + 2) <= usize::MAX,
        scores_fit(query@.len() as int, target@.len() as int, scores),
    ensures
        exists|x: int, j: int|
            first_best_by_diagonals(query@, target@, scores, x, j) && reported_from(
                query@,
                target@,
                scores,
                x,
                j,
                r.0@,
                r.1@,
                r.2 as int,
            ) && r.3 == x && r.4 == x + j,
        r.2 >= 0,
        query@.len() == 0 || target@.len() == 0 || (disjoint_alphabets(query@, target@)
            && scores.gap <= 0 && scores.miss <= 0) ==> r.0@.len() == 0 && r.1@.len() == 0
            && r.2 == 0,
{
    proof {
        assert(query@.len() + 1 <= usize::MAX && (query@.len() + 1) * (2 * query@.len() + target@.len() + 2) >= 1)
            by (nonlinear_arith)
            requires
                (query@.len() + 1) * (2 * query@.len() + target@.len() + 2) <= usize::MAX,
        ;
    }
    let data = string_scores_sequential(query, target, scores);
    let width = query.len() + 1;
    let ghost q = query@;
    let ghost t = target@;
    let ghost rows: int = 2 * q.len() as int + t.len() as int + 2;
    let max_index = argmax(data.as_slice());
    let (x, y) = coord(max_index, width);
    proof {
        assert(y < rows) by (nonlinear_arith)
            requires
                idx(x as int, y as int, width as int) == max_index,
                max_index < width * rows,
                x < width,
        ;
        assert(data@[max_index as int] == diag(q, t, scores, x as int, y as int));
        lemma_idx_bound(0, 0, width as int, rows);
        assert(data@[0] == diag(q, t, scores, 0, 0));
        if data@[max_index as int] == 0 {
            assert(max_index == 0);
            assert(x == 0 && y == 0) by (nonlinear_arith)
                requires
                    idx(x as int, y as int, width as int) == 0,
                    x < width,
                    width > 0,
            ;
        }
        assert(x <= y <= x + t.len());
        assert forall|x2: int, j2: int| 0 <= x2 <= q.len() && 0 <= j2 <= t.len() implies #[trigger] cell(
            q,
            t,
            scores,
            x2,
            j2,
        ) <= cell(q, t, scores, x as int, y - x) by {
            lemma_idx_bound(x2, x2 + j2, width as int, rows);
            assert(data@[idx(x2, x2 + j2, width as int)] == diag(q, t, scores, x2, x2 + j2));
        }
        assert forall|x2: int, j2: int|
            0 <= x2 <= q.len() && 0 <= j2 <= t.len() && (x2 + j2 < y || (x2 + j2 == y && x2 < x)) implies #[trigger] cell(
            q,
            t,
            scores,
            x2,
            j2,
        ) < cell(q, t, scores, x as int, y - x) by {
            lemma_idx_strict(x2, x2 + j2, x as int, y as int, width as int);
            assert(data@[idx(x2, x2 + j2, width as int)] == diag(q, t, scores, x2, x2 + j2));
        }
        assert(first_best_by_diagonals(q, t, scores, x as int, y - x));
        lemma_idx_bound(q.len() as int, (q.len() + t.len()) as int, width as int, rows);
    }
    let mut query_result: Vec<char> = Vec::new();
    let mut target_result: Vec<char> = Vec::new();
    traceback(
        data.as_slice(),
        query,
        target,
        x,
        y,
        width,
        &mut query_result,
        &mut target_result,
        scores,
    );
    let score = data[max_index];
    proof {
        lemma_cell_nonneg(q, t, scores, x as int, y - x);
        if q.len() == 0 || t.len() == 0 || (disjoint_alphabets(q, t) && scores.gap <= 0 && scores.miss <= 0) {
            lemma_cell_zero(q, t, scores, x as int, y - x);
        }
        assert(reported_from(q, t, scores, x as int, y - x, query_result@, target_result@, score as int));
    }
    (query_result, target_result, score, x, y)
}

/// Aligns with the anti-diagonal surface filled in `threads` column bands; the
/// walk starts at the first best cell in anti-diagonal order.
pub fn find_alignment_parallel(
    query: &[char],
    target: &[char],
    threads: usize,
    scores: AlignmentScores,
) -> (r: AlignResult)
    requires
        threads >= 1,
        threads * query@.len() <= usize::MAX,
        (query@.len() + 1) * (2 * query@.len() + target@.len() + 2) <= usize::MAX,
        scores_fit(query@.len() as int, target@.len() as int, scores),
    ensures
        exists|x: int, j: int|
            first_best_by_diagonals(query@, target@, scores, x, j) && reported_from(
                query@,
                target@,
                scores,
                x,
                j,
                r.0@,
                r.1@,
                r.2 as int,
            ) && r.3 == x && r.4 == x + j,
        r.2 >= 0,
        query@.len() == 0 || target@.len() == 0 || (disjoint_alphabets(query@, target@)
            && scores.gap <= 0 && scores.miss <= 0) ==> r.0@.len() == 0 && r.1@.len() == 0
            && r.2 == 0,
{
    proof {
        assert(query@.len() + 1 <= usize::MAX && (query@.len() + 1) * (2 * query@.len() + target@.len() + 2) >= 1)
            by (nonlinear_arith)
            requires
                (query@.len() + 1) * (2 * query@.len() + target@.len() + 2) <= usize::MAX,
        ;
    }
    let data = string_scores_parallel(query, target, scores, threads);
    let width = query.len() + 1;
    let ghost q = query@;
    let ghost t = target@;
    let ghost rows: int = 2 * q.len() as int + t.len() as int + 2;
    let max_index = argmax(data.as_slice());
    let (x, y) = coord(max_index, width);
    proof {
        assert(y < rows) by (nonlinear_arith)
            requires
                idx(x as int, y as int, width as int) == max_index,
                max_index < width * rows,
                x < width,
        ;
        assert(data@[max_index as int] == diag(q, t, scores, x as int, y as int));
        lemma_idx_bound(0, 0, width as int, rows);
        assert(data@[0] == diag(q, t, scores, 0, 0));
        if data@[max_index as int] == 0 {
            assert(max_index == 0);
            assert(x == 0 && y == 0) by (nonlinear_arith)
                requires
                    idx(x as int, y as int, width as int) == 0,
                    x < width,
                    width > 0,
            ;
        }
        assert(x <= y <= x + t.len());
        assert forall|x2: int, j2: int| 0 <= x2 <= q.len() && 0 <= j2 <= t.len() implies #[trigger] cell(
            q,
            t,
            scores,
            x2,
            j2,
        ) <= cell(q, t, scores, x as int, y - x) by {
            lemma_idx_bound(x2, x2 + j2, width as int, rows);
            assert(data@[idx(x2, x2 + j2, width as int)] == diag(q, t, scores, x2, x2 + j2));
        }
        assert forall|x2: int, j2: int|
            0 <= x2 <= q.len() && 0 <= j2 <= t.len() && (x2 + j2 < y || (x2 + j2 == y && x2 < x)) implies #[trigger] cell(
            q,
            t,
            scores,
            x2,
            j2,
        ) < cell(q, t, scores, x as int, y - x) by {
            lemma_idx_strict(x2, x2 + j2, x as int, y as int, width as int);
            assert(data@[idx(x2, x2 + j2, width as int)] == diag(q, t, scores, x2, x2 + j2));
        }
        assert(first_best_by_diagonals(q, t, scores, x as int, y - x));
        lemma_idx_bound(q.len() as int, (q.len() + t.len()) as int, width as int, rows);
    }
    let mut query_result: Vec<char> = Vec::new();
    let mut target_result: Vec<char> = Vec::new();
    traceback(
        data.as_slice(),
        query,
        target,
        x,
        y,
        width,
        &mut query_result,
        &mut target_result,
        scores,
    );
    let score = data[max_index];
    proof {
        lemma_cell_nonneg(q, t, scores, x as int, y - x);
        if q.len() == 0 || t.len() == 0 || (disjoint_alphabets(q, t) && scores.gap <= 0 && scores.miss <= 0) {
            lemma_cell_zero(q, t, scores, x as int, y - x);
        }
        assert(reported_from(q, t, scores, x as int, y - x, query_result@, target_result@, score as int));
    }
    (query_result, target_result, score, x, y)
}

/// Aligns with the batched wavefront surface over sequences padded to whole
/// batches of `LANES`; the walk starts at the first best cell in anti-diagonal
/// order.
pub fn find_alignment_simd<const LANES: usize>(
    query: &[char],
    target: &[char],
    scores: AlignmentScores,
) -> (r: AlignResult)
    requires
        wavefront_fits(query@.len() as int, target@.len() as int, LANES as int, scores),
    ensures
        exists|x: int, j: int|
            first_best_by_diagonals(query@, target@, scores, x, j) && reported_from(
                query@,
                target@,
                scores,
                x,
                j,
                r.0@,
                r.1@,
                r.2 as int,
            ) && r.3 == x && r.4 == x + j,
        r.2 >= 0,
        query@.len() == 0 || target@.len() == 0 || (disjoint_alphabets(query@, target@)
            && scores.gap <= 0 && scores.miss <= 0) ==> r.0@.len() == 0 && r.1@.len() == 0
            && r.2 == 0,
{
    let data = string_scores_simd::<LANES>(query, target, scores);
    let query_size = roundup(query.len(), LANES);
    let target_size = roundup(target.len(), LANES);
    let data_width = query_size + 1;
    let ghost q = query@;
    let ghost t = target@;
    proof {
        lemma_idx_bound(
            q.len() as int,
            (q.len() + t.len()) as int,
            data_width as int,
            2 * query_size + target_size + 2,
        );
    }
    let (x, y) = best_cell_diag(data.as_slice(), query, target, data_width, scores);
    let mut query_result: Vec<char> = Vec::new();
    let mut target_result: Vec<char> = Vec::new();
    traceback(
        data.as_slice(),
        query,
        target,
        x,
        y,
        data_width,
        &mut query_result,
        &mut target_result,
        scores,
    );
    proof {
        lemma_idx_bound(x as int, y as int, data_width as int, 2 * query_size + target_size + 2);
    }
    let score = data[index(x, y, data_width)];
    proof {
        assert(score == diag(q, t, scores, x as int, y as int));
        lemma_cell_nonneg(q, t, scores, x as int, y - x);
        if q.len() == 0 || t.len() == 0 || (disjoint_alphabets(q, t) && scores.gap <= 0 && scores.miss <= 0) {
            lemma_cell_zero(q, t, scores, x as int, y - x);
        }
        assert(reported_from(q, t, scores, x as int, y - x, query_result@, target_result@, score as int));
    }
    (query_result, target_result, score, x, y)
}

} // verus!
