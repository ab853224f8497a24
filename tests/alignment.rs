use sw::algorithm::{find_alignment_simd_lowmem, AlignmentScores};
use sw::utils::{coord, index, roundup};
use sw::{find_alignment_sequential, find_alignment_sequential_straight, find_alignment_simd, AlignResult};

const LANES: usize = 64;

const SCORES: AlignmentScores = AlignmentScores {
    gap: -1,
    match_score: 2,
    miss: -1,
};

#[test]
fn test_roundup() {
    assert_eq!(roundup(5, 0), 5);
    assert_eq!(roundup(5, 1), 5);
    assert_eq!(roundup(5, 3), 6);
    assert_eq!(roundup(0, 3), 0);
    assert_eq!(roundup(6, 3), 6);
}

#[test]
fn test_index_coord_consistency() {
    for width in 3..100 {
        for x in 0..width {
            for y in 0..100 {
                let (x2, y2) = coord(index(x, y, width), width);
                if x != x2 || y != y2 {
                    println!("{} {} {}", x, y, width);
                }
                assert_eq!(x, x2);
                assert_eq!(y, y2);
            }
        }
    }
}

fn alignment_tester(
    alignment_function: fn(&[char], &[char], AlignmentScores) -> AlignResult,
    q_in: &str,
    t_in: &str,
    q_out: &str,
    t_out: &str,
    scores: AlignmentScores,
) {
    let q_in = &q_in.chars().collect::<Vec<_>>();
    let t_in = &t_in.chars().collect::<Vec<_>>();
    let q_out = &q_out.chars().collect::<Vec<_>>();
    let t_out = &t_out.chars().collect::<Vec<_>>();
    let res = alignment_function(q_in, t_in, scores);
    assert_eq!(&res.0, q_out);
    assert_eq!(&res.1, t_out);
}

fn test_basic(alignment_function: fn(&[char], &[char], AlignmentScores) -> AlignResult) {
    alignment_tester(alignment_function, "A", "A", "A", "A", SCORES);
    alignment_tester(alignment_function, "HOI", "HOI", "HOI", "HOI", SCORES);
    alignment_tester(
        alignment_function,
        "AAAAAAATAAAAAAAA",
        "CCTCCCCCCCCCCCCC",
        "T",
        "T",
        SCORES,
    );
}

fn test_no_match(alignment_function: fn(&[char], &[char], AlignmentScores) -> AlignResult) {
    alignment_tester(alignment_function, "A", "T", "", "", SCORES);
    alignment_tester(alignment_function, "AAAA", "TTTT", "", "", SCORES);
    alignment_tester(
        alignment_function,
        "ATATTTATTAAATATATTATATATTAA",
        "CCCCGCGGGGCGCGCGGCGCGCGCGCGCG",
        "",
        "",
        SCORES,
    );
}

fn test_gap(alignment_function: fn(&[char], &[char], AlignmentScores) -> AlignResult) {
    alignment_tester(alignment_function, "CCAA", "GATA", "A-A", "ATA", SCORES);
    alignment_tester(alignment_function, "AA", "ATA", "A-A", "ATA", SCORES);
    alignment_tester(alignment_function, "AA", "ATTA", "A", "A", SCORES);
    alignment_tester(
        alignment_function,
        "AAAAAAAAA",
        "AAATTAAATTAAA",
        "AAA--AAA--AAA",
        "AAATTAAATTAAA",
        SCORES,
    );

    let scores_alternative = AlignmentScores {
        gap: -1,
        match_score: 3,
        miss: -1,
    };

    alignment_tester(
        alignment_function,
        "AA",
        "ATTA",
        "A--A",
        "ATTA",
        scores_alternative,
    );
    alignment_tester(
        alignment_function,
        "ATA",
        "ATTA",
        "A-TA",
        "ATTA",
        scores_alternative,
    );
}

fn test_mismatch(alignment_function: fn(&[char], &[char], AlignmentScores) -> AlignResult) {
    alignment_tester(alignment_function, "ATA", "ACA", "ATA", "ACA", SCORES);

    let scores_alternative = AlignmentScores {
        gap: -3,
        match_score: 5,
        miss: -2,
    };

    alignment_tester(
        alignment_function,
        "ACAC",
        "ACGCTTTTACC",
        "ACAC",
        "ACGC",
        scores_alternative,
    );
    alignment_tester(
        alignment_function,
        "ACAC",
        "AGGCTTTTACC",
        "ACAC",
        "AC-C",
        scores_alternative,
    );
}

fn test_multiple_options(alignment_function: fn(&[char], &[char], AlignmentScores) -> AlignResult) {
    alignment_tester(alignment_function, "AA", "AATAA", "AA", "AA", SCORES);
    alignment_tester(alignment_function, "ATTA", "ATAA", "ATTA", "A-TA", SCORES);
}

fn test_advanced_short(alignment_function: fn(&[char], &[char], AlignmentScores) -> AlignResult) {
    alignment_tester(
        alignment_function,
        "TACGGGCCCGCTAC",
        "TAGCCCTATCGGTCA",
        "TACGGGCCCGCTA-C",
        "TA---G-CC-CTATC",
        SCORES,
    );
    alignment_tester(
        alignment_function,
        "AAGTCGTAAAAGTGCACGT",
        "TAAGCCGTTAAGTGCGCGTG",
        "AAGTCGTAAAAGTGCACGT",
        "AAGCCGT-TAAGTGCGCGT",
        SCORES,
    );
}

fn test_long(alignment_function: fn(&[char], &[char], AlignmentScores) -> AlignResult) {
    let query = std::iter::repeat('x')
        .take(1000)
        .chain("abc".chars())
        .chain(std::iter::repeat('x').take(500))
        .collect::<String>();
    let target = std::iter::repeat('z')
        .take(2000)
        .chain("abc".chars())
        .chain(std::iter::repeat('z').take(1000))
        .collect::<String>();

    alignment_tester(alignment_function, &query, &target, "abc", "abc", SCORES);

    let target2 = std::iter::repeat('z')
        .take(2000)
        .chain("ac".chars())
        .chain(std::iter::repeat('z').take(1000))
        .collect::<String>();

    alignment_tester(alignment_function, &query, &target2, "abc", "a-c", SCORES);
}

fn test_all(alignment_function: fn(&[char], &[char], AlignmentScores) -> AlignResult) {
    test_basic(alignment_function);
    test_no_match(alignment_function);
    test_gap(alignment_function);
    test_mismatch(alignment_function);
    test_multiple_options(alignment_function);
    test_advanced_short(alignment_function);
    test_long(alignment_function);
}

#[test]
fn test_all_sequential() {
    test_all(find_alignment_sequential);
}

#[test]
fn test_all_sequential_straight() {
    test_all(find_alignment_sequential_straight);
}

#[test]
fn test_all_simd() {
    test_all(find_alignment_simd::<LANES>);
}

#[test]
fn test_all_simd_lowmem() {
    test_all(find_alignment_simd_lowmem::<LANES>);
}
