//! FASTA text: each record starts at a header line beginning with `>`; the
//! lines up to the next header are joined, upper-cased, into its sequence.
use vstd::prelude::*;

verus! {

/// What `str::to_uppercase` makes of the characters `s`.
pub uninterp spec fn upper_of(s: Seq<char>) -> Seq<char>;

/// Relies on `str::to_uppercase`: the upper-cased text depends on the
/// characters alone.
#[verifier::external_body]
fn uppercase(line: &Vec<char>) -> (r: Vec<char>)
    ensures
        r@ == upper_of(line@),
{
    line.iter().collect::<String>().to_uppercase().chars().collect()
}

/// A line that starts a new record.
pub open spec fn is_header(line: Seq<char>) -> bool {
    line.len() > 0 && line[0] == '>'
}

/// The records finished, and the sequence of the record being read, after the
/// first `n` lines; `upper[i]` is line `i` upper-cased. Records without sequence
/// lines are dropped.
pub open spec fn fasta_state(lines: Seq<Seq<char>>, upper: Seq<Seq<char>>, n: int) -> (Seq<
    Seq<char>,
>, Seq<char>)
    decreases n,
{
    if n <= 0 {
        (Seq::empty(), Seq::empty())
    } else {
        let before = fasta_state(lines, upper, n - 1);
        if is_header(lines[n - 1]) {
            if before.1.len() > 0 {
                (before.0.push(before.1), Seq::empty())
            } else {
                (before.0, Seq::empty())
            }
        } else {
            (before.0, before.1 + upper[n - 1])
        }
    }
}

/// The sequences of the FASTA text `lines`, given each line upper-cased.
pub open spec fn fasta_sequences(lines: Seq<Seq<char>>, upper: Seq<Seq<char>>) -> Seq<Seq<char>> {
    let end = fasta_state(lines, upper, lines.len() as int);
    if end.1.len() > 0 {
        end.0.push(end.1)
    } else {
        end.0
    }
}

/// The characters of each line.
pub open spec fn line_views(lines: Seq<Vec<char>>) -> Seq<Seq<char>> {
    Seq::new(lines.len(), |i: int| lines[i]@)
}

/// Each line upper-cased.
pub open spec fn upper_lines(lines: Seq<Seq<char>>) -> Seq<Seq<char>> {
    Seq::new(lines.len(), |i: int| upper_of(lines[i]))
}

/// The sequences of FASTA text, given its lines and, line for line, their
/// upper-cased form.
pub fn fasta_records(lines: &Vec<Vec<char>>, upper: &Vec<Vec<char>>) -> (r: Vec<Vec<char>>)
    requires
        lines@.len() == upper@.len(),
    ensures
        line_views(r@) == fasta_sequences(line_views(lines@), line_views(upper@)),
{
    let ghost ls = line_views(lines@);
    let ghost us = line_views(upper@);
    let mut records: Vec<Vec<char>> = Vec::new();
    let mut current: Vec<char> = Vec::new();
    let mut i: usize = 0;
    while i < lines.len()
        invariant
            ls == line_views(lines@),
            us == line_views(upper@),
            lines@.len() == upper@.len(),
            i <= lines@.len(),
            line_views(records@) == fasta_state(ls, us, i as int).0,
            current@ == fasta_state(ls, us, i as int).1,
        decreases lines@.len() - i,
    {
        let line = &lines[i];
        let ghost before = line_views(records@);
        if line.len() > 0 && line[0] == '>' {
            if current.len() > 0 {
                let finished = current;
                current = Vec::new();
                records.push(finished);
                proof {
                    assert(line_views(records@) =~= before.push(finished@));
                }
            } else {
                current = Vec::new();
            }
        } else {
            let extra = &upper[i];
            let ghost start = current@;
            let mut k: usize = 0;
            while k < extra.len()
                invariant
                    k <= extra@.len(),
                    current@ == start + extra@.subrange(0, k as int),
                decreases extra@.len() - k,
            {
                current.push(extra[k]);
                k += 1;
                proof {
                    assert(current@ =~= start + extra@.subrange(0, k as int));
                }
            }
            proof {
                assert(extra@.subrange(0, extra@.len() as int) =~= extra@);
                assert(us[i as int] == extra@);
            }
        }
        i += 1;
        proof {
            assert(ls[i - 1] == lines@[i - 1]@);
        }
    }
    if current.len() > 0 {
        let ghost before = line_views(records@);
        let ghost last = current@;
        records.push(current);
        proof {
            assert(line_views(records@) =~= before.push(last));
        }
    }
    records
}

/// The sequences of FASTA text given as lines.
pub fn parse_fasta_lines(lines: &Vec<Vec<char>>) -> (r: Vec<Vec<char>>)
    ensures
        line_views(r@) == fasta_sequences(line_views(lines@), upper_lines(line_views(lines@))),
{
    let mut upper: Vec<Vec<char>> = Vec::new();
    let mut i: usize = 0;
    while i < lines.len()
        invariant
            i <= lines@.len(),
            upper@.len() == i,
            forall|k: int| 0 <= k < i ==> #[trigger] upper@[k]@ == upper_of(lines@[k]@),
        decreases lines@.len() - i,
    {
        let line_upper = uppercase(&lines[i]);
        upper.push(line_upper);
        i += 1;
    }
    proof {
        assert(line_views(upper@) =~= upper_lines(line_views(lines@)));
    }
    fasta_records(lines, &upper)
}

} // verus!
