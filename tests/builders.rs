use sw::algorithm::{
    band_columns, band_row, find_alignment_simd_lowmem, store_band_row, string_scores_parallel, string_scores_sequential,
    string_scores_simd, string_scores_straight, traceback, traceback_straight,
    traceback_wrapping, AlignmentScores,
};
use sw::batching::{BatchAction, BatchEvent, BatchState};
use sw::utils::index;
use sw::{
    find_alignment_parallel, find_alignment_sequential, find_alignment_sequential_straight,
    find_alignment_simd, lowmem_fits, AlignResult,
};

type Aligner = fn(&[char], &[char], AlignmentScores) -> AlignResult;

const BASIC: AlignmentScores = AlignmentScores {
    gap: -1,
    match_score: 2,
    miss: -1,
};

const STRICT: AlignmentScores = AlignmentScores {
    gap: -2,
    match_score: 3,
    miss: -3,
};

fn parallel_1(q: &[char], t: &[char], s: AlignmentScores) -> AlignResult {
    find_alignment_parallel(q, t, 1, s)
}

fn parallel_3(q: &[char], t: &[char], s: AlignmentScores) -> AlignResult {
    find_alignment_parallel(q, t, 3, s)
}

fn aligners() -> Vec<Aligner> {
    vec![
        find_alignment_sequential,
        find_alignment_sequential_straight,
        find_alignment_simd::<64>,
        find_alignment_simd::<4>,
        find_alignment_simd_lowmem::<64>,
        find_alignment_simd_lowmem::<4>,
        find_alignment_simd_lowmem::<1>,
        parallel_1,
        parallel_3,
    ]
}

fn chars(s: &str) -> Vec<char> {
    s.chars().collect()
}

fn text(v: &[char]) -> String {
    v.iter().collect()
}

fn expect_everywhere(q: &str, t: &str, scores: AlignmentScores, aq: &str, at: &str, score: i16) {
    for (i, f) in aligners().into_iter().enumerate() {
        let r = f(&chars(q), &chars(t), scores);
        assert_eq!(text(&r.0), aq, "aligner {}", i);
        assert_eq!(text(&r.1), at, "aligner {}", i);
        assert_eq!(r.2, score, "aligner {}", i);
    }
}

/// Deterministic pseudo-random sequence over `alphabet`.
fn sequence(seed: u64, len: usize, alphabet: &[char]) -> Vec<char> {
    let mut state = seed.wrapping_mul(6364136223846793005).wrapping_add(1442695040888963407);
    let mut out = Vec::with_capacity(len);
    for _ in 0..len {
        state = state.wrapping_mul(6364136223846793005).wrapping_add(1442695040888963407);
        out.push(alphabet[((state >> 33) as usize) % alphabet.len()]);
    }
    out
}

fn strip(v: &[char]) -> Vec<char> {
    v.iter().copied().filter(|c| *c != '-').collect()
}

fn is_substring(part: &[char], whole: &[char]) -> bool {
    part.is_empty() || whole.windows(part.len()).any(|w| w == part)
}

#[test]
fn single_match_and_identical_words() {
    expect_everywhere("A", "A", BASIC, "A", "A", 2);
    expect_everywhere("HOI", "HOI", BASIC, "HOI", "HOI", 6);
}

#[test]
fn gap_in_query() {
    expect_everywhere("CCAA", "GATA", BASIC, "A-A", "ATA", 3);
}

#[test]
fn gap_with_strict_scores() {
    expect_everywhere("Hoi", "HHii", STRICT, "Hoi", "H-i", 4);
}

#[test]
fn query_inside_long_target() {
    let target: String = std::iter::repeat('z')
        .take(1000)
        .chain("abc".chars())
        .chain(std::iter::repeat('z').take(1000))
        .collect();
    expect_everywhere("abc", &target, STRICT, "abc", "abc", 9);
    let ring = find_alignment_simd_lowmem::<64>(&chars("abc"), &chars(&target), STRICT);
    let full = find_alignment_simd::<64>(&chars("abc"), &chars(&target), STRICT);
    assert_eq!(ring, full);
}

#[test]
fn empty_sequences_give_empty_alignment() {
    expect_everywhere("", "", BASIC, "", "", 0);
    expect_everywhere("", "ACGT", BASIC, "", "", 0);
    expect_everywhere("ACGT", "", BASIC, "", "", 0);
    expect_everywhere("", "ACGT", STRICT, "", "", 0);
}

#[test]
fn disjoint_alphabets_give_empty_alignment() {
    expect_everywhere("ACGT", "XYZW", BASIC, "", "", 0);
    expect_everywhere("ACGTACGTAC", "XYZWXYZWXYZWXYZWXYZWXYZW", STRICT, "", "", 0);
}

#[test]
fn builders_agree_on_random_sequences() {
    let alphabet = ['A', 'C', 'G', 'T'];
    let score_sets = [
        BASIC,
        STRICT,
        AlignmentScores { gap: -3, match_score: 5, miss: -2 },
        AlignmentScores { gap: -1, match_score: 1, miss: -1 },
    ];
    for seed in 0..12u64 {
        let q = sequence(seed, 3 + (seed as usize * 7) % 40, &alphabet);
        let t = sequence(seed + 100, 2 * q.len() + (seed as usize * 13) % 90, &alphabet);
        for scores in score_sets {
            let straight = find_alignment_sequential_straight(&q, &t, scores);
            let diagonal = find_alignment_sequential(&q, &t, scores);
            assert!(straight.2 >= 0);
            for f in aligners() {
                let r = f(&q, &t, scores);
                assert_eq!(r.2, straight.2);
                assert!(r.2 >= 0);
            }
            for f in [
                find_alignment_simd::<64> as Aligner,
                find_alignment_simd::<8>,
                find_alignment_simd_lowmem::<64>,
                find_alignment_simd_lowmem::<8>,
                find_alignment_simd_lowmem::<1>,
                parallel_3,
            ] {
                assert_eq!(f(&q, &t, scores), diagonal);
            }
        }
    }
}

#[test]
fn ring_survives_long_runs_of_near_misses() {
    let q: Vec<char> = std::iter::repeat('A').take(30).collect();
    let mut t = Vec::new();
    for i in 0..400 {
        t.push(if i % 3 == 0 { 'C' } else { 'A' });
    }
    for scores in [BASIC, STRICT, AlignmentScores { gap: -1, match_score: 7, miss: -1 }] {
        let full = find_alignment_simd::<8>(&q, &t, scores);
        assert_eq!(find_alignment_simd_lowmem::<8>(&q, &t, scores), full);
        assert_eq!(find_alignment_simd_lowmem::<1>(&q, &t, scores), full);
        assert_eq!(find_alignment_sequential(&q, &t, scores), full);
    }
}

#[test]
fn aligned_sequences_are_substrings_with_gaps() {
    let alphabet = ['A', 'C', 'G', 'T'];
    for seed in 0..10u64 {
        let q = sequence(seed + 7, 10 + seed as usize, &alphabet);
        let t = sequence(seed + 70, 25 + 3 * seed as usize, &alphabet);
        for f in aligners() {
            let r = f(&q, &t, BASIC);
            assert_eq!(r.0.len(), r.1.len());
            assert!(r.0.len() <= q.len() + t.len());
            assert!(is_substring(&strip(&r.0), &q));
            assert!(is_substring(&strip(&r.1), &t));
        }
    }
}

#[test]
fn straight_surface_values() {
    let data = string_scores_straight(&chars("AB"), &chars("AB"), BASIC);
    assert_eq!(data, vec![0, 0, 0, 0, 2, 1, 0, 1, 4]);
}

#[test]
fn diagonal_surface_values() {
    let data = string_scores_sequential(&chars("AB"), &chars("AB"), BASIC);
    assert_eq!(data.len(), 24);
    assert_eq!(data[index(1, 2, 3)], 2);
    assert_eq!(data[index(2, 3, 3)], 1);
    assert_eq!(data[index(1, 3, 3)], 1);
    assert_eq!(data[index(2, 4, 3)], 4);
    assert_eq!(data.iter().map(|v| *v as i32).sum::<i32>(), 8);
}

#[test]
fn wavefront_surface_matches_sequential() {
    let q = chars("GATTACA");
    let t = chars("TTAGATTACCAGATTA");
    let seq = string_scores_sequential(&q, &t, STRICT);
    let simd = string_scores_simd::<4>(&q, &t, STRICT);
    let width = 8;
    let simd_width = 9;
    assert_eq!(simd.len(), simd_width * (2 * 8 + 16 + 2));
    for x in 0..=q.len() {
        for y in x..=x + t.len() {
            assert_eq!(simd[index(x, y, simd_width)], seq[index(x, y, width)]);
        }
    }
}

#[test]
fn banded_surface_matches_sequential() {
    let q = chars("ACGTTGCAAC");
    let t = chars("TTACGTAGCAACGT");
    let seq = string_scores_sequential(&q, &t, BASIC);
    for threads in 1..14 {
        assert_eq!(string_scores_parallel(&q, &t, BASIC, threads), seq);
    }
}

#[test]
fn tracebacks_walk_back_from_a_cell() {
    let q = chars("CCAA");
    let t = chars("GATA");
    let straight = string_scores_straight(&q, &t, BASIC);
    let (mut aq, mut at) = (vec!['>'], vec!['<']);
    traceback_straight(&straight, &q, &t, 4, 4, 5, &mut aq, &mut at, BASIC);
    assert_eq!(text(&aq), ">A-A");
    assert_eq!(text(&at), "<ATA");

    let diagonal = string_scores_sequential(&q, &t, BASIC);
    let (mut aq, mut at) = (Vec::new(), Vec::new());
    traceback(&diagonal, &q, &t, 4, 8, 5, &mut aq, &mut at, BASIC);
    assert_eq!(text(&aq), "A-A");
    assert_eq!(text(&at), "ATA");

    let (mut aq, mut at) = (Vec::new(), Vec::new());
    traceback_wrapping(&diagonal, &q, &t, 4, 8, 5, &mut aq, &mut at, BASIC);
    assert_eq!(text(&aq), "A-A");
    assert_eq!(text(&at), "ATA");
}

#[test]
fn first_best_cell_breaks_ties() {
    let r = find_alignment_sequential_straight(&chars("AB"), &chars("BA"), BASIC);
    assert_eq!((text(&r.0), text(&r.1), r.2, r.3, r.4), ("B".to_string(), "B".to_string(), 2, 2, 1));
    let r = find_alignment_sequential(&chars("AB"), &chars("BA"), BASIC);
    assert_eq!((text(&r.0), text(&r.1), r.2, r.3, r.4), ("A".to_string(), "A".to_string(), 2, 1, 3));
    let r = find_alignment_simd::<4>(&chars("AB"), &chars("BA"), BASIC);
    assert_eq!((text(&r.0), text(&r.1), r.2, r.3, r.4), ("A".to_string(), "A".to_string(), 2, 1, 3));
    let r = find_alignment_parallel(&chars("AB"), &chars("BA"), 2, BASIC);
    assert_eq!((r.3, r.4), (1, 3));
}

#[test]
fn non_ascii_symbols_are_compared_exactly() {
    let q: Vec<char> = vec!['\u{10041}', 'é', '\u{41}'];
    let t: Vec<char> = vec!['A', 'é', '\u{10041}', 'é', 'A'];
    for f in aligners() {
        let r = f(&q, &t, BASIC);
        assert_eq!(r.0, q);
        assert_eq!(r.1, vec!['\u{10041}', 'é', 'A']);
        assert_eq!(r.2, 6);
    }
}

#[test]
fn size_and_score_limits() {
    assert!(lowmem_fits::<64>(1503, 3003, BASIC));
    assert!(!lowmem_fits::<0>(3, 3, BASIC));
    assert!(!lowmem_fits::<64>(usize::MAX - 10, 3, BASIC));
    assert!(!lowmem_fits::<64>(3, usize::MAX, BASIC));
    let big = AlignmentScores { gap: -1, match_score: 600, miss: -1 };
    assert!(lowmem_fits::<1>(54, 100, big));
    assert!(!lowmem_fits::<1>(55, 100, big));
    assert!(!lowmem_fits::<64>(54, 100, big));
    let positive_gap = AlignmentScores { gap: 1, match_score: 2, miss: -1 };
    assert!(lowmem_fits::<1>(100, 16000, positive_gap));
    assert!(!lowmem_fits::<1>(100, 16300, positive_gap));
}

#[test]
fn scores_from_penalties() {
    let s = AlignmentScores::from_penalties(3, 3, 2).unwrap();
    assert_eq!((s.gap, s.match_score, s.miss), (-2, 3, -3));
    assert!(AlignmentScores::from_penalties(3, i16::MIN, 2).is_none());
    assert!(AlignmentScores::from_penalties(3, 3, i16::MIN).is_none());
    let s = AlignmentScores::from_penalties(1, -4, i16::MAX).unwrap();
    assert_eq!((s.gap, s.match_score, s.miss), (-i16::MAX, 1, 4));
}

#[test]
fn bands_cover_the_query_columns() {
    assert_eq!(band_columns(0, 3, 10), (1, 4));
    assert_eq!(band_columns(1, 3, 10), (4, 7));
    assert_eq!(band_columns(2, 3, 10), (7, 11));
    assert_eq!(band_columns(0, 1, 0), (1, 1));
}

#[test]
fn band_rows_compose_the_surface() {
    let q = chars("ACGTTGCAAC");
    let t = chars("TTACGTAGCAACGT");
    let expected = string_scores_sequential(&q, &t, BASIC);
    let width = q.len() + 1;
    let rows = 2 * q.len() + t.len() + 2;
    let mut data = vec![0i16; width * rows];
    for y in 1..q.len() + t.len() + 1 {
        let mut pieces = Vec::new();
        for band in 0..4 {
            let (left, right) = band_columns(band, 4, q.len());
            pieces.push((left, band_row(&data, &q, &t, y, left, right, BASIC)));
        }
        for (left, values) in pieces {
            store_band_row(&mut data, &q, &t, &values, y, left, BASIC);
        }
    }
    assert_eq!(data, expected);
}

#[test]
fn results_are_sent_in_batches() {
    let mut state = BatchState::new();
    state = state.step(BatchEvent::NewPackage(5), 2).0;
    let mut actions = Vec::new();
    for _ in 0..5 {
        let (next, action) = state.step(BatchEvent::ResultArrived, 2);
        state = next;
        actions.push(action == BatchAction::Send);
    }
    assert_eq!(actions, vec![false, true, false, true, true]);
    assert_eq!((state.buffered, state.received, state.total), (0, 5, 5));
    let (next, action) = state.step(BatchEvent::NewPackage(3), 2);
    assert!(action == BatchAction::Hold);
    assert_eq!((next.buffered, next.received, next.total), (0, 0, 3));
}

#[test]
fn aligned_sequences_have_equal_length() {
    let q = chars("TACGGGCCCGCTAC");
    let t = chars("TAGCCCTATCGGTCA");
    for f in aligners() {
        let r = f(&q, &t, BASIC);
        assert_eq!(r.0.len(), 15);
        assert_eq!(r.1.len(), 15);
    }
}
