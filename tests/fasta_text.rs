use sw::fasta::{fasta_records, parse_fasta_lines};

fn lines(text: &[&str]) -> Vec<Vec<char>> {
    text.iter().map(|l| l.chars().collect()).collect()
}

fn texts(records: &[Vec<char>]) -> Vec<String> {
    records.iter().map(|r| r.iter().collect()).collect()
}

#[test]
fn records_join_lines_between_headers() {
    let input = lines(&[">one", "ac", "gt", ">two", "tt", ">empty", ">three", "g"]);
    assert_eq!(texts(&parse_fasta_lines(&input)), vec!["ACGT", "TT", "G"]);
}

#[test]
fn text_before_the_first_header_is_a_record() {
    let input = lines(&["acc", ">x", "g", ""]);
    assert_eq!(texts(&parse_fasta_lines(&input)), vec!["ACC", "G"]);
}

#[test]
fn no_sequence_lines_give_no_records() {
    assert!(parse_fasta_lines(&lines(&[])).is_empty());
    assert!(parse_fasta_lines(&lines(&[">a", ">b"])).is_empty());
}

#[test]
fn records_take_the_given_upper_case_lines() {
    let input = lines(&[">h", "ab", "cd"]);
    let upper = lines(&["?", "XY", "Z"]);
    assert_eq!(texts(&fasta_records(&input, &upper)), vec!["XYZ"]);
}

#[test]
fn upper_casing_follows_unicode() {
    let input = lines(&[">h", "straße", "éa"]);
    assert_eq!(texts(&parse_fasta_lines(&input)), vec!["STRASSEÉA"]);
}
