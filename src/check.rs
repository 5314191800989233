use vstd::prelude::*;

use crate::parse::{
    decimal_equals_hundredths, equals_hundredths, first_index, lemma_first_index, line_spec,
    parse_line_range, LineError, Reading,
};
use crate::text::Sample;

verus! {

/// Why a candidate's output does not match the reference spectrum.
#[derive(Debug, Clone, Copy, PartialEq, Eq, Structural)]
pub enum CheckError {
    /// Line `line` (counted from 0) could not be read.
    Parse { line: usize, error: LineError },
    /// The output has `actual` samples where `expected` were due.
    LengthMismatch { expected: usize, actual: usize },
    /// Sample `index` differs from the reference.
    SampleMismatch { index: usize },
}

/// `l` without one trailing carriage return.
pub open spec fn strip_cr(l: Seq<u8>) -> Seq<u8> {
    if l.len() > 0 && l.last() == 13 {
        l.drop_last()
    } else {
        l
    }
}

proof fn lemma_first_index_range(s: Seq<u8>, c: u8, i: int)
    requires
        0 <= i,
    ensures
        first_index(s, c, i) == -1 || (i <= first_index(s, c, i) < s.len() && s[first_index(
            s,
            c,
            i,
        )] == c),
    decreases s.len() - i,
{
    if i < s.len() && s[i] != c {
        lemma_first_index_range(s, c, i + 1);
    }
}

/// The lines of `s`: split at each newline, a last line without newline kept
/// when it is not empty, one trailing carriage return removed from each.
pub open spec fn lines_spec(s: Seq<u8>) -> Seq<Seq<u8>>
    decreases s.len() via lines_spec_decreases
{
    if s.len() == 0 {
        Seq::empty()
    } else {
        let k = first_index(s, 10, 0);
        if k < 0 {
            seq![strip_cr(s)]
        } else {
            seq![strip_cr(s.subrange(0, k))] + lines_spec(s.subrange(k + 1, s.len() as int))
        }
    }
}

#[via_fn]
proof fn lines_spec_decreases(s: Seq<u8>) {
    lemma_first_index_range(s, 10, 0);
}

/// The reading `r` equals the reference sample `s` in both components.
pub open spec fn reading_matches(r: Reading, s: Sample) -> bool {
    equals_hundredths(r.re, s.re as int) && equals_hundredths(r.im, s.im as int)
}

/// Every line reads as a `re,im` pair.
pub open spec fn all_lines_read(ls: Seq<Seq<u8>>) -> bool {
    forall|j: int| 0 <= j < ls.len() ==> (#[trigger] line_spec(ls[j])) is Ok
}

/// The outcome of comparing the output `out` of a candidate with the reference
/// `expected`: the first unreadable line, else a length difference, else the
/// first differing sample.
pub open spec fn check_spec(out: Seq<u8>, expected: Seq<Sample>, r: Result<(), CheckError>) -> bool {
    let ls = lines_spec(out);
    match r {
        Err(CheckError::Parse { line, error }) => line < ls.len() && line_spec(ls[line as int])
            == Err::<Reading, LineError>(error) && forall|j: int|
            0 <= j < line ==> (#[trigger] line_spec(ls[j])) is Ok,
        Err(CheckError::LengthMismatch { expected: n, actual: m }) => all_lines_read(ls) && n
            == expected.len() && m == ls.len() && n != m,
        Err(CheckError::SampleMismatch { index }) => all_lines_read(ls) && ls.len()
            == expected.len() && index < ls.len() && !reading_matches(
            line_spec(ls[index as int])->Ok_0,
            expected[index as int],
        ) && forall|j: int|
            0 <= j < index ==> reading_matches(
                #[trigger] line_spec(ls[j])->Ok_0,
                expected[j],
            ),
        Ok(()) => all_lines_read(ls) && ls.len() == expected.len() && forall|j: int|
            0 <= j < ls.len() ==> reading_matches(#[trigger] line_spec(ls[j])->Ok_0, expected[j]),
    }
}

fn find_newline(v: &Vec<u8>, lo: usize) -> (r: usize)
    requires
        lo <= v.len(),
    ensures
        lo <= r <= v.len(),
        r < v.len() ==> v@[r as int] == 10,
        forall|j: int| lo <= j < r ==> v@[j] != 10,
{
    let mut i: usize = lo;
    while i < v.len() && v[i] != 10
        invariant
            lo <= i <= v.len(),
            forall|j: int| lo <= j < i ==> v@[j] != 10,
        decreases v.len() - i,
    {
        i = i + 1;
    }
    i
}

/// Reads every line of a candidate's output; on failure, the index of the
/// first line that does not read.
pub fn read_lines(out: &Vec<u8>) -> (r: Result<Vec<Reading>, (usize, LineError)>)
    ensures
        ({
            let ls = lines_spec(out@);
            match r {
                Ok(rs) => all_lines_read(ls) && rs@.len() == ls.len() && forall|j: int|
                    0 <= j < ls.len() ==> line_spec(#[trigger] ls[j]) == Ok::<Reading, LineError>(
                        rs@[j],
                    ),
                Err((line, error)) => line < ls.len() && line_spec(ls[line as int]) == Err::<
                    Reading,
                    LineError,
                >(error) && forall|j: int| 0 <= j < line ==> (#[trigger] line_spec(ls[j])) is Ok,
            }
        }),
{
    let mut rs: Vec<Reading> = Vec::new();
    let mut start: usize = 0;
    let ghost done: Seq<Seq<u8>> = Seq::empty();
    assert(out@.subrange(0, out.len() as int) =~= out@);
    assert(lines_spec(out@) =~= done + lines_spec(out@));
    while start < out.len()
        invariant
            start <= out.len(),
            lines_spec(out@) == done + lines_spec(out@.subrange(start as int, out.len() as int)),
            rs@.len() == done.len(),
            forall|j: int| 0 <= j < done.len() ==> line_spec(#[trigger] done[j]) == Ok::<Reading, LineError>(rs@[j]),
        decreases out.len() - start,
    {
        let ghost rest = out@.subrange(start as int, out.len() as int);
        let k = find_newline(out, start);
        proof {
            lemma_first_index(rest, 10, 0, k - start);
        }
        let hi: usize = if k > start && out[k - 1] == 13 {
            k - 1
        } else {
            k
        };
        let ghost line = out@.subrange(start as int, hi as int);
        proof {
            let seg = if k < out.len() {
                rest.subrange(0, k - start)
            } else {
                rest
            };
            assert(seg =~= out@.subrange(start as int, k as int));
            assert(strip_cr(seg) =~= line);
            if k < out.len() {
                assert(rest.subrange(k - start + 1, rest.len() as int) =~= out@.subrange(
                    k + 1,
                    out.len() as int,
                ));
                assert(lines_spec(rest) == seq![line] + lines_spec(
                    out@.subrange(k + 1, out.len() as int),
                ));
            } else {
                assert(out@.subrange(out.len() as int, out.len() as int) =~= Seq::<u8>::empty());
                assert(lines_spec(rest) =~= seq![line] + lines_spec(
                    out@.subrange(out.len() as int, out.len() as int),
                ));
            }
            assert(lines_spec(out@) =~= done.push(line) + lines_spec(
                out@.subrange(
                    if k < out.len() {
                        k + 1
                    } else {
                        k as int
                    },
                    out.len() as int,
                ),
            ));
        }
        match parse_line_range(out, start, hi) {
            Ok(reading) => {
                rs.push(reading);
                proof {
                    done = done.push(line);
                }
            },
            Err(e) => {
                proof {
                    assert(lines_spec(out@)[done.len() as int] == line);
                    assert forall|j: int| 0 <= j < done.len() implies (#[trigger] line_spec(
                        lines_spec(out@)[j],
                    )) is Ok by {
                        assert(lines_spec(out@)[j] == done[j]);
                    }
                }
                return Err((rs.len(), e));
            },
        }
        start = if k < out.len() {
            k + 1
        } else {
            k
        };
    }
    proof {
        assert(out@.subrange(start as int, out.len() as int) =~= Seq::<u8>::empty());
        assert(lines_spec(out@) =~= done);
    }
    Ok(rs)
}

/// Compares the standard output of a candidate with the reference spectrum:
/// every line must read, the number of lines must equal the number of
/// samples, and each line must equal its sample exactly.
pub fn check_output(out: &Vec<u8>, expected: &Vec<Sample>) -> (r: Result<(), CheckError>)
    ensures
        check_spec(out@, expected@, r),
{
    let rs = match read_lines(out) {
        Ok(rs) => rs,
        Err((line, error)) => {
            return Err(CheckError::Parse { line, error });
        },
    };
    if rs.len() != expected.len() {
        return Err(CheckError::LengthMismatch { expected: expected.len(), actual: rs.len() });
    }
    let ghost ls = lines_spec(out@);
    let mut i: usize = 0;
    while i < rs.len()
        invariant
            rs@.len() == expected@.len() == ls.len(),
            i <= rs.len(),
            ls == lines_spec(out@),
            forall|j: int| 0 <= j < ls.len() ==> line_spec(#[trigger] ls[j]) == Ok::<Reading, LineError>(rs@[j]),
            forall|j: int| 0 <= j < i ==> reading_matches(#[trigger] line_spec(ls[j])->Ok_0, expected@[j]),
        decreases rs.len() - i,
    {
        let a = decimal_equals_hundredths(&rs[i].re, expected[i].re);
        let b = decimal_equals_hundredths(&rs[i].im, expected[i].im);
        if !(a && b) {
            assert(line_spec(ls[i as int]) == Ok::<Reading, LineError>(rs@[i as int]));
            return Err(CheckError::SampleMismatch { index: i });
        }
        assert(line_spec(ls[i as int]) == Ok::<Reading, LineError>(rs@[i as int]));
        i = i + 1;
    }
    Ok(())
}

} // verus!
