//! Mathematical model of local alignment: the scoring recurrence in row-major
//! coordinates, its anti-diagonal view, the traceback path, and the bounds that
//! keep every score inside `i16`.
use vstd::prelude::*;

verus! {

/// Penalty triple of one alignment call: `match_score` for equal symbols,
/// `miss` for unequal ones, `gap` for each skipped symbol.
#[derive(Clone, Copy)]
pub struct AlignmentScores {
    pub gap: i16,
    pub match_score: i16,
    pub miss: i16,
}

impl AlignmentScores {
    /// Scores from a match bonus and two penalties given as positive costs:
    /// the gap and mismatch scores are the penalties negated. `None` when a
    /// penalty is `i16::MIN`, whose negation does not fit.
    pub fn from_penalties(match_score: i16, mismatch_penalty: i16, gap_penalty: i16) -> (r: Option<
        AlignmentScores,
    >)
        ensures
            r == (if mismatch_penalty == i16::MIN || gap_penalty == i16::MIN {
                None::<AlignmentScores>
            } else {
                Some(
                    AlignmentScores {
                        gap: (-gap_penalty) as i16,
                        match_score,
                        miss: (-mismatch_penalty) as i16,
                    },
                )
            }),
    {
        if mismatch_penalty == i16::MIN || gap_penalty == i16::MIN {
            None
        } else {
            Some(AlignmentScores { gap: -gap_penalty, match_score, miss: -mismatch_penalty })
        }
    }
}

/// A symbol of a padded sequence: a real character, or one of two sentinels
/// that never equal a real character nor each other.
pub enum Symbol {
    Real(char),
    QueryPad,
    TargetPad,
}

pub open spec fn max2(a: int, b: int) -> int {
    if a >= b { a } else { b }
}

pub open spec fn sub_score<A>(a: A, b: A, s: AlignmentScores) -> int {
    if a == b { s.match_score as int } else { s.miss as int }
}

/// Best score of a local alignment that ends with query symbol `x` and target
/// symbol `j` (both counted from 1); zero on the borders and outside the sequences.
pub open spec fn cell<A>(q: Seq<A>, t: Seq<A>, s: AlignmentScores, x: int, j: int) -> int
    decreases x + j,
{
    if x <= 0 || j <= 0 || x > q.len() || j > t.len() {
        0
    } else {
        max2(
            max2(cell(q, t, s, x, j - 1) + s.gap, cell(q, t, s, x - 1, j) + s.gap),
            max2(cell(q, t, s, x - 1, j - 1) + sub_score(q[x - 1], t[j - 1], s), 0),
        )
    }
}

/// The same surface in anti-diagonal coordinates: row `y` holds the cells whose
/// query and target positions sum to `y`.
pub open spec fn diag<A>(q: Seq<A>, t: Seq<A>, s: AlignmentScores, x: int, y: int) -> int {
    cell(q, t, s, x, y - x)
}

/// `n` rounded up to a multiple of `m`; unchanged when `m` is zero.
pub open spec fn round_up(n: int, m: int) -> int {
    if m <= 0 || n % m == 0 { n } else { n + (m - n % m) }
}

/// Flat position of `(x, y)` in a buffer of rows of `width` entries.
pub open spec fn idx(x: int, y: int, width: int) -> int {
    y * width + x
}

/// What one step may add at most: the largest of zero, the match and mismatch
/// scores, and (when it is positive) the gap score.
pub open spec fn gain(s: AlignmentScores) -> int {
    let g = max2(max2(s.match_score as int, s.miss as int), 0);
    if s.gap > 0 { max2(g, s.gap as int) } else { g }
}

/// Upper bound of `cell(x, j)`: with a non-positive gap only steps that consume a
/// query symbol can raise a score, else every step can.
pub open spec fn cap(x: int, j: int, s: AlignmentScores) -> int {
    if s.gap <= 0 { x * gain(s) } else { (x + j) * gain(s) }
}

/// Every score of the surface over sequences of these lengths fits in `i16`.
pub open spec fn scores_fit(qlen: int, tlen: int, s: AlignmentScores) -> bool {
    cap(qlen, tlen, s) <= i16::MAX
}

/// Sequences of these lengths, rounded up to whole batches of `lanes`, give a
/// wavefront surface whose size fits in `usize` and whose scores fit in `i16`.
pub open spec fn wavefront_fits(qlen: int, tlen: int, lanes: int, s: AlignmentScores) -> bool {
    &&& lanes > 0
    &&& qlen + lanes <= usize::MAX
    &&& tlen + lanes <= usize::MAX
    &&& (round_up(qlen, lanes) + 1) * (2 * round_up(qlen, lanes) + round_up(tlen, lanes) + 2)
        <= usize::MAX
    &&& scores_fit(round_up(qlen, lanes), round_up(tlen, lanes), s)
}

/// The largest ring that a query of this length may need fits in `usize`.
pub open spec fn ring_fits(qlen: int, lanes: int) -> bool {
    (round_up(qlen, lanes) + 1) * (2 * round_up(qlen, lanes) + i16::MAX + 2) <= usize::MAX
}

/// Symbol `i` of `s` padded with `pad`.
pub open spec fn symbol_at(s: Seq<char>, i: int, pad: Symbol) -> Symbol {
    if 0 <= i < s.len() { Symbol::Real(s[i]) } else { pad }
}

/// `s` as symbols, followed by `pad` up to length `n`.
pub open spec fn padded(s: Seq<char>, n: int, pad: Symbol) -> Seq<Symbol> {
    Seq::new(n as nat, |i: int| symbol_at(s, i, pad))
}

pub proof fn lemma_cell_nonneg<A>(q: Seq<A>, t: Seq<A>, s: AlignmentScores, x: int, j: int)
    ensures
        cell(q, t, s, x, j) >= 0,
{
}

pub proof fn lemma_cap_monotone(x1: int, j1: int, x2: int, j2: int, s: AlignmentScores)
    requires
        0 <= x1 <= x2,
        0 <= j1 <= j2,
    ensures
        cap(x1, j1, s) <= cap(x2, j2, s),
{
    assert(gain(s) >= 0);
    assert(x1 * gain(s) <= x2 * gain(s)) by (nonlinear_arith)
        requires
            0 <= x1 <= x2,
            gain(s) >= 0,
    ;
    assert((x1 + j1) * gain(s) <= (x2 + j2) * gain(s)) by (nonlinear_arith)
        requires
            0 <= x1 + j1 <= x2 + j2,
            gain(s) >= 0,
    ;
}

pub proof fn lemma_cell_cap<A>(q: Seq<A>, t: Seq<A>, s: AlignmentScores, x: int, j: int)
    requires
        x >= 0,
        j >= 0,
    ensures
        0 <= cell(q, t, s, x, j) <= cap(x, j, s),
    decreases x + j,
{
    let g = gain(s);
    assert(g >= 0);
    assert(x * g >= 0 && (x + j) * g >= 0) by (nonlinear_arith)
        requires
            x >= 0,
            j >= 0,
            g >= 0,
    ;
    if x <= 0 || j <= 0 || x > q.len() || j > t.len() {
    } else {
        lemma_cell_cap(q, t, s, x, j - 1);
        lemma_cell_cap(q, t, s, x - 1, j);
        lemma_cell_cap(q, t, s, x - 1, j - 1);
        assert((x - 1) * g + g == x * g) by (nonlinear_arith);
        assert((x - 1 + j - 1) * g + g <= (x + j) * g) by (nonlinear_arith)
            requires
                g >= 0,
        ;
        assert((x + j - 1) * g + g == (x + j) * g) by (nonlinear_arith);
        assert(x * g <= (x + j) * g) by (nonlinear_arith)
            requires
                j >= 0,
                g >= 0,
        ;
        lemma_cap_monotone(x, j - 1, x, j, s);
        lemma_cap_monotone(x - 1, j, x, j, s);
    }
}

/// A score of the surface over sequences of at most these lengths fits in `i16`.
pub proof fn lemma_cell_fits<A>(
    q: Seq<A>,
    t: Seq<A>,
    s: AlignmentScores,
    x: int,
    j: int,
    qlen: int,
    tlen: int,
)
    requires
        0 <= x <= qlen,
        0 <= j <= tlen,
        scores_fit(qlen, tlen, s),
    ensures
        0 <= cell(q, t, s, x, j) <= i16::MAX,
{
    lemma_cell_cap(q, t, s, x, j);
    lemma_cap_monotone(x, j, qlen, tlen, s);
}

/// Two pairs of sequences that agree on which query symbols equal which target
/// symbols over the first `x` and `j` positions have the same score there.
pub proof fn lemma_cell_same_pattern<A, B>(
    q1: Seq<A>,
    t1: Seq<A>,
    q2: Seq<B>,
    t2: Seq<B>,
    s: AlignmentScores,
    x: int,
    j: int,
)
    requires
        0 <= x <= q1.len(),
        0 <= x <= q2.len(),
        0 <= j <= t1.len(),
        0 <= j <= t2.len(),
        forall|a: int, b: int|
            0 <= a < x && 0 <= b < j ==> (q1[a] == t1[b]) == (q2[a] == t2[b]),
    ensures
        cell(q1, t1, s, x, j) == cell(q2, t2, s, x, j),
    decreases x + j,
{
    if x > 0 && j > 0 {
        lemma_cell_same_pattern(q1, t1, q2, t2, s, x, j - 1);
        lemma_cell_same_pattern(q1, t1, q2, t2, s, x - 1, j);
        lemma_cell_same_pattern(q1, t1, q2, t2, s, x - 1, j - 1);
    }
}

/// Padding does not change the scores of real cells.
pub proof fn lemma_padded_cell(
    q: Seq<char>,
    t: Seq<char>,
    s: AlignmentScores,
    qn: int,
    tn: int,
    x: int,
    j: int,
)
    requires
        q.len() <= qn,
        t.len() <= tn,
        0 <= x <= q.len(),
        0 <= j <= t.len(),
    ensures
        cell(padded(q, qn, Symbol::QueryPad), padded(t, tn, Symbol::TargetPad), s, x, j)
            == cell(q, t, s, x, j),
{
    let pq = padded(q, qn, Symbol::QueryPad);
    let pt = padded(t, tn, Symbol::TargetPad);
    assert(pq.len() == qn as nat);
    assert(pt.len() == tn as nat);
    assert forall|a: int, b: int| 0 <= a < x && 0 <= b < j implies (q[a] == t[b]) == (pq[a]
        == pt[b]) by {
        assert(a < q.len());
        assert(pq[a] == Symbol::Real(q[a]));
        assert(pt[b] == Symbol::Real(t[b]));
    }
    lemma_cell_same_pattern(q, t, pq, pt, s, x, j);
}

pub proof fn lemma_idx_bound(x: int, y: int, width: int, height: int)
    requires
        0 <= x < width,
        0 <= y < height,
    ensures
        0 <= idx(x, y, width) < width * height,
        idx(x, y, width) <= (height - 1) * width + width - 1,
{
    assert(0 <= y * width + x < width * height) by (nonlinear_arith)
        requires
            0 <= x < width,
            0 <= y < height,
    ;
    assert(y * width + x <= (height - 1) * width + width - 1) by (nonlinear_arith)
        requires
            0 <= x < width,
            0 <= y < height,
    ;
}

pub proof fn lemma_idx_monotone(x1: int, y1: int, x2: int, y2: int, width: int)
    requires
        0 <= x1 < width,
        0 <= x2,
        0 <= y1,
        y1 < y2 || (y1 == y2 && x1 <= x2),
    ensures
        0 <= idx(x1, y1, width) <= idx(x2, y2, width),
{
    assert(0 <= y1 * width + x1 <= y2 * width + x2) by (nonlinear_arith)
        requires
            0 <= x1 < width,
            0 <= x2,
            0 <= y1,
            y1 < y2 || (y1 == y2 && x1 <= x2),
    ;
}

pub proof fn lemma_idx_distinct(x1: int, y1: int, x2: int, y2: int, width: int)
    requires
        0 <= x1 < width,
        0 <= x2 < width,
        0 <= y1,
        0 <= y2,
        x1 != x2 || y1 != y2,
    ensures
        idx(x1, y1, width) != idx(x2, y2, width),
{
    if y1 == y2 {
    } else if y1 < y2 {
        assert(y1 * width + x1 < y2 * width + x2) by (nonlinear_arith)
            requires
                y1 < y2,
                0 <= x1 < width,
                0 <= x2,
        ;
    } else {
        assert(y2 * width + x2 < y1 * width + x1) by (nonlinear_arith)
            requires
                y2 < y1,
                0 <= x2 < width,
                0 <= x1,
        ;
    }
}

/// The symbol that marks a gap in an aligned sequence.
pub open spec fn gap_symbol() -> char {
    '-'
}

/// Whether the backward walk stops at `(x, j)`: on a border, outside the
/// sequences, or at a cell of score zero where the local alignment starts.
pub open spec fn trace_stops(q: Seq<char>, t: Seq<char>, s: AlignmentScores, x: int, j: int) -> bool {
    x <= 0 || j <= 0 || x > q.len() || j > t.len() || cell(q, t, s, x, j) == 0
}

/// Whether the walk at `(x, j)` takes the substitution step (checked first).
pub open spec fn takes_diagonal(q: Seq<char>, t: Seq<char>, s: AlignmentScores, x: int, j: int) -> bool {
    cell(q, t, s, x, j) == cell(q, t, s, x - 1, j - 1) + sub_score(q[x - 1], t[j - 1], s)
}

/// Whether the walk at `(x, j)` skips a query symbol against a gap in the target
/// (checked second).
pub open spec fn takes_target_gap(q: Seq<char>, t: Seq<char>, s: AlignmentScores, x: int, j: int) -> bool {
    cell(q, t, s, x, j) == cell(q, t, s, x - 1, j) + s.gap
}

/// The aligned query and target that the backward walk from `(x, j)` reports.
pub open spec fn trace(q: Seq<char>, t: Seq<char>, s: AlignmentScores, x: int, j: int) -> (Seq<
    char,
>, Seq<char>)
    decreases x + j,
{
    if trace_stops(q, t, s, x, j) {
        (Seq::empty(), Seq::empty())
    } else if takes_diagonal(q, t, s, x, j) {
        let p = trace(q, t, s, x - 1, j - 1);
        (p.0.push(q[x - 1]), p.1.push(t[j - 1]))
    } else if takes_target_gap(q, t, s, x, j) {
        let p = trace(q, t, s, x - 1, j);
        (p.0.push(q[x - 1]), p.1.push(gap_symbol()))
    } else {
        let p = trace(q, t, s, x, j - 1);
        (p.0.push(gap_symbol()), p.1.push(t[j - 1]))
    }
}

/// Number of substitution steps of the walk from `(x, j)`.
pub open spec fn trace_subs(q: Seq<char>, t: Seq<char>, s: AlignmentScores, x: int, j: int) -> int
    decreases x + j,
{
    if trace_stops(q, t, s, x, j) {
        0
    } else if takes_diagonal(q, t, s, x, j) {
        trace_subs(q, t, s, x - 1, j - 1) + 1
    } else if takes_target_gap(q, t, s, x, j) {
        trace_subs(q, t, s, x - 1, j)
    } else {
        trace_subs(q, t, s, x, j - 1)
    }
}

/// Number of gap steps of the walk from `(x, j)`.
pub open spec fn trace_gaps(q: Seq<char>, t: Seq<char>, s: AlignmentScores, x: int, j: int) -> int
    decreases x + j,
{
    if trace_stops(q, t, s, x, j) {
        0
    } else if takes_diagonal(q, t, s, x, j) {
        trace_gaps(q, t, s, x - 1, j - 1)
    } else if takes_target_gap(q, t, s, x, j) {
        trace_gaps(q, t, s, x - 1, j) + 1
    } else {
        trace_gaps(q, t, s, x, j - 1) + 1
    }
}

/// How many anti-diagonal rows the walk from `(x, j)` descends: two per
/// substitution, one per gap.
pub open spec fn trace_rows(q: Seq<char>, t: Seq<char>, s: AlignmentScores, x: int, j: int) -> int {
    2 * trace_subs(q, t, s, x, j) + trace_gaps(q, t, s, x, j)
}

/// A cell that is not a stop equals one of its three predecessors plus the
/// step's score.
pub proof fn lemma_cell_has_predecessor(q: Seq<char>, t: Seq<char>, s: AlignmentScores, x: int, j: int)
    requires
        !trace_stops(q, t, s, x, j),
    ensures
        takes_diagonal(q, t, s, x, j) || takes_target_gap(q, t, s, x, j) || cell(q, t, s, x, j)
            == cell(q, t, s, x, j - 1) + s.gap,
{
}

pub proof fn lemma_trace_counts_nonneg(q: Seq<char>, t: Seq<char>, s: AlignmentScores, x: int, j: int)
    ensures
        trace_subs(q, t, s, x, j) >= 0,
        trace_gaps(q, t, s, x, j) >= 0,
        !trace_stops(q, t, s, x, j) ==> trace_rows(q, t, s, x, j) >= 1,
    decreases x + j,
{
    if !trace_stops(q, t, s, x, j) {
        lemma_trace_counts_nonneg(q, t, s, x - 1, j - 1);
        lemma_trace_counts_nonneg(q, t, s, x - 1, j);
        lemma_trace_counts_nonneg(q, t, s, x, j - 1);
    }
}

/// `(x, j)` is a cell of the surface with the highest score.
pub open spec fn is_best(q: Seq<char>, t: Seq<char>, s: AlignmentScores, x: int, j: int) -> bool {
    &&& 0 <= x <= q.len()
    &&& 0 <= j <= t.len()
    &&& forall|x2: int, j2: int|
        0 <= x2 <= q.len() && 0 <= j2 <= t.len() ==> #[trigger] cell(q, t, s, x2, j2) <= cell(
            q,
            t,
            s,
            x,
            j,
        )
}

/// `(x, j)` is the first best cell when the surface is read row by row: by
/// target position, then by query position.
pub open spec fn first_best_by_rows(q: Seq<char>, t: Seq<char>, s: AlignmentScores, x: int, j: int) -> bool {
    &&& is_best(q, t, s, x, j)
    &&& forall|x2: int, j2: int|
        0 <= x2 <= q.len() && 0 <= j2 <= t.len() && (j2 < j || (j2 == j && x2 < x))
            ==> #[trigger] cell(q, t, s, x2, j2) < cell(q, t, s, x, j)
}

/// `(x, j)` is the first best cell when the surface is read by anti-diagonals:
/// by `x + j`, then by query position.
pub open spec fn first_best_by_diagonals(
    q: Seq<char>,
    t: Seq<char>,
    s: AlignmentScores,
    x: int,
    j: int,
) -> bool {
    &&& is_best(q, t, s, x, j)
    &&& forall|x2: int, j2: int|
        0 <= x2 <= q.len() && 0 <= j2 <= t.len() && (x2 + j2 < x + j || (x2 + j2 == x + j && x2
            < x)) ==> #[trigger] cell(q, t, s, x2, j2) < cell(q, t, s, x, j)
}

/// The aligned query, aligned target and score that the walk from `(x, j)`
/// reports.
pub open spec fn reported_from(
    q: Seq<char>,
    t: Seq<char>,
    s: AlignmentScores,
    x: int,
    j: int,
    aligned_query: Seq<char>,
    aligned_target: Seq<char>,
    score: int,
) -> bool {
    &&& aligned_query == trace(q, t, s, x, j).0
    &&& aligned_target == trace(q, t, s, x, j).1
    &&& score == cell(q, t, s, x, j)
}

/// No symbol of `q` occurs in `t`.
pub open spec fn disjoint_alphabets(q: Seq<char>, t: Seq<char>) -> bool {
    forall|a: int, b: int| 0 <= a < q.len() && 0 <= b < t.len() ==> q[a] != t[b]
}

/// With an empty sequence, or with disjoint alphabets and no positive penalty,
/// no cell scores above zero.
pub proof fn lemma_cell_zero(q: Seq<char>, t: Seq<char>, s: AlignmentScores, x: int, j: int)
    requires
        q.len() == 0 || t.len() == 0 || (disjoint_alphabets(q, t) && s.gap <= 0 && s.miss <= 0),
    ensures
        cell(q, t, s, x, j) == 0,
    decreases x + j,
{
    if x > 0 && j > 0 && x <= q.len() && j <= t.len() {
        lemma_cell_zero(q, t, s, x, j - 1);
        lemma_cell_zero(q, t, s, x - 1, j);
        lemma_cell_zero(q, t, s, x - 1, j - 1);
    }
}

pub proof fn lemma_idx_strict(x1: int, y1: int, x2: int, y2: int, width: int)
    requires
        0 <= x1 < width,
        0 <= x2,
        0 <= y1,
        y1 < y2 || (y1 == y2 && x1 < x2),
    ensures
        0 <= idx(x1, y1, width) < idx(x2, y2, width),
{
    assert(0 <= y1 * width + x1 < y2 * width + x2) by (nonlinear_arith)
        requires
            0 <= x1 < width,
            0 <= x2,
            0 <= y1,
            y1 < y2 || (y1 == y2 && x1 < x2),
    ;
}

/// Along the walk from `(x, j)` a score is paid for by its steps: at most `gain`
/// per substitution and `gap` per gap; a walk makes at most `x` substitutions.
pub proof fn lemma_trace_budget(q: Seq<char>, t: Seq<char>, s: AlignmentScores, x: int, j: int)
    requires
        s.gap < 0,
        x >= 0,
    ensures
        cell(q, t, s, x, j) <= gain(s) * trace_subs(q, t, s, x, j) + s.gap * trace_gaps(q, t, s, x, j),
        0 <= trace_subs(q, t, s, x, j) <= x,
        trace_gaps(q, t, s, x, j) >= 0,
    decreases x + j,
{
    let p = gain(s);
    if trace_stops(q, t, s, x, j) {
    } else if takes_diagonal(q, t, s, x, j) {
        lemma_trace_budget(q, t, s, x - 1, j - 1);
        let d = trace_subs(q, t, s, x - 1, j - 1);
        let g = trace_gaps(q, t, s, x - 1, j - 1);
        assert(sub_score(q[x - 1], t[j - 1], s) <= p);
        assert(p * (d + 1) == p * d + p) by (nonlinear_arith);
    } else if takes_target_gap(q, t, s, x, j) {
        lemma_trace_budget(q, t, s, x - 1, j);
        let g = trace_gaps(q, t, s, x - 1, j);
        assert(s.gap * (g + 1) == s.gap * g + s.gap) by (nonlinear_arith);
    } else {
        lemma_cell_has_predecessor(q, t, s, x, j);
        lemma_trace_budget(q, t, s, x, j - 1);
        let g = trace_gaps(q, t, s, x, j - 1);
        assert(s.gap * (g + 1) == s.gap * g + s.gap) by (nonlinear_arith);
    }
}

/// Rows that a ring must keep so that a walk from any cell of query position at
/// most `qs` finds every row it reads: two per substitution, one per gap, and two
/// more for the rows a step reads below the walk.
pub open spec fn ring_rows(qs: int, s: AlignmentScores) -> int {
    2 * qs + (qs * gain(s)) / (-s.gap) + 2
}

/// With a negative gap the walk from `(x, j)` descends fewer rows than a ring of
/// `ring_rows(qs, s)` holds.
pub proof fn lemma_trace_rows_bound(q: Seq<char>, t: Seq<char>, s: AlignmentScores, x: int, j: int, qs: int)
    requires
        s.gap < 0,
        0 <= x <= qs,
    ensures
        trace_rows(q, t, s, x, j) + 2 <= ring_rows(qs, s),
{
    lemma_trace_budget(q, t, s, x, j);
    lemma_cell_nonneg(q, t, s, x, j);
    let p = gain(s);
    let d = trace_subs(q, t, s, x, j);
    let g = trace_gaps(q, t, s, x, j);
    let big_g = -s.gap;
    assert(p >= 0);
    assert(g * big_g <= qs * p) by (nonlinear_arith)
        requires
            0 <= p * d + s.gap * g,
            big_g == -s.gap,
            0 <= d <= x <= qs,
            p >= 0,
            g >= 0,
    ;
    assert(g <= (qs * p) / big_g) by (nonlinear_arith)
        requires
            g * big_g <= qs * p,
            big_g > 0,
            g >= 0,
    ;
}

/// Only one cell of the surface holds the highest score.
pub open spec fn unique_best(q: Seq<char>, t: Seq<char>, s: AlignmentScores) -> bool {
    forall|x1: int, j1: int, x2: int, j2: int|
        is_best(q, t, s, x1, j1) && is_best(q, t, s, x2, j2) ==> x1 == x2 && j1 == j2
}

/// The row-major builder reports the first best cell by rows, the anti-diagonal,
/// wavefront and ring builders the first best cell by anti-diagonals. Both cells
/// carry the same score, and when only one cell holds the highest score they are
/// that cell, so all builders report the same aligned sequences.
pub proof fn lemma_builders_agree(
    q: Seq<char>,
    t: Seq<char>,
    s: AlignmentScores,
    x_rows: int,
    j_rows: int,
    x_diag: int,
    j_diag: int,
)
    requires
        first_best_by_rows(q, t, s, x_rows, j_rows),
        first_best_by_diagonals(q, t, s, x_diag, j_diag),
    ensures
        cell(q, t, s, x_rows, j_rows) == cell(q, t, s, x_diag, j_diag),
        unique_best(q, t, s) ==> x_rows == x_diag && j_rows == j_diag && trace(
            q,
            t,
            s,
            x_rows,
            j_rows,
        ) == trace(q, t, s, x_diag, j_diag),
{
    assert(cell(q, t, s, x_rows, j_rows) <= cell(q, t, s, x_diag, j_diag));
    assert(cell(q, t, s, x_diag, j_diag) <= cell(q, t, s, x_rows, j_rows));
}

/// `s` without its gap symbols.
pub open spec fn strip_gaps(s: Seq<char>) -> Seq<char>
    decreases s.len(),
{
    if s.len() == 0 {
        s
    } else if s.last() == gap_symbol() {
        strip_gaps(s.drop_last())
    } else {
        strip_gaps(s.drop_last()).push(s.last())
    }
}

/// The cell where the walk from `(x, j)` stops.
pub open spec fn trace_start(q: Seq<char>, t: Seq<char>, s: AlignmentScores, x: int, j: int) -> (int, int)
    decreases x + j,
{
    if trace_stops(q, t, s, x, j) {
        (x, j)
    } else if takes_diagonal(q, t, s, x, j) {
        trace_start(q, t, s, x - 1, j - 1)
    } else if takes_target_gap(q, t, s, x, j) {
        trace_start(q, t, s, x - 1, j)
    } else {
        trace_start(q, t, s, x, j - 1)
    }
}

/// For sequences without the gap symbol, removing the gaps from the reported
/// aligned query leaves the query symbols from the walk's start up to `x`, in
/// order, and likewise for the target up to `j`.
pub proof fn lemma_aligned_are_substrings(q: Seq<char>, t: Seq<char>, s: AlignmentScores, x: int, j: int)
    requires
        0 <= x <= q.len(),
        0 <= j <= t.len(),
        forall|i: int| 0 <= i < q.len() ==> q[i] != gap_symbol(),
        forall|i: int| 0 <= i < t.len() ==> t[i] != gap_symbol(),
    ensures
        0 <= trace_start(q, t, s, x, j).0 <= x,
        0 <= trace_start(q, t, s, x, j).1 <= j,
        strip_gaps(trace(q, t, s, x, j).0) == q.subrange(trace_start(q, t, s, x, j).0, x),
        strip_gaps(trace(q, t, s, x, j).1) == t.subrange(trace_start(q, t, s, x, j).1, j),
    decreases x + j,
{
    let a = trace(q, t, s, x, j);
    if trace_stops(q, t, s, x, j) {
        assert(q.subrange(x, x) =~= Seq::<char>::empty());
        assert(t.subrange(j, j) =~= Seq::<char>::empty());
    } else if takes_diagonal(q, t, s, x, j) {
        lemma_aligned_are_substrings(q, t, s, x - 1, j - 1);
        let p = trace(q, t, s, x - 1, j - 1);
        let st = trace_start(q, t, s, x - 1, j - 1);
        assert(a.0.drop_last() =~= p.0);
        assert(a.1.drop_last() =~= p.1);
        assert(q.subrange(st.0, x - 1).push(q[x - 1]) =~= q.subrange(st.0, x));
        assert(t.subrange(st.1, j - 1).push(t[j - 1]) =~= t.subrange(st.1, j));
    } else if takes_target_gap(q, t, s, x, j) {
        lemma_aligned_are_substrings(q, t, s, x - 1, j);
        let p = trace(q, t, s, x - 1, j);
        let st = trace_start(q, t, s, x - 1, j);
        assert(a.0.drop_last() =~= p.0);
        assert(a.1.drop_last() =~= p.1);
        assert(q.subrange(st.0, x - 1).push(q[x - 1]) =~= q.subrange(st.0, x));
    } else {
        lemma_aligned_are_substrings(q, t, s, x, j - 1);
        let p = trace(q, t, s, x, j - 1);
        let st = trace_start(q, t, s, x, j - 1);
        assert(a.0.drop_last() =~= p.0);
        assert(a.1.drop_last() =~= p.1);
        assert(t.subrange(st.1, j - 1).push(t[j - 1]) =~= t.subrange(st.1, j));
    }
}

/// The reported aligned query and target have equal length, at most the number
/// of query and target symbols up to the walk's end cell, so never more than
/// `q.len() + t.len()`.
pub proof fn lemma_aligned_lengths(q: Seq<char>, t: Seq<char>, s: AlignmentScores, x: int, j: int)
    requires
        0 <= x <= q.len(),
        0 <= j <= t.len(),
    ensures
        trace(q, t, s, x, j).0.len() == trace(q, t, s, x, j).1.len(),
        trace(q, t, s, x, j).0.len() <= x + j <= q.len() + t.len(),
    decreases x + j,
{
    if !trace_stops(q, t, s, x, j) {
        lemma_aligned_lengths(q, t, s, x - 1, j - 1);
        lemma_aligned_lengths(q, t, s, x - 1, j);
        lemma_aligned_lengths(q, t, s, x, j - 1);
    }
}

} // verus!
