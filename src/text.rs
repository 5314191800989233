use vstd::prelude::*;

verus! {

/// Number of fractional decimal digits kept in every persisted or compared value.
pub const PRECISION: usize = 2;

/// A complex sample rounded to `PRECISION` fractional digits, held exactly as
/// integer counts of hundredths.
#[derive(Debug, Clone, Copy, PartialEq, Eq, Structural)]
pub struct Sample {
    pub re: i64,
    pub im: i64,
}

pub open spec fn is_digit(b: u8) -> bool {
    48 <= b <= 57
}

pub open spec fn digit_char(d: nat) -> u8 {
    (48 + d) as u8
}

/// Decimal digits of `n`, most significant first, without leading zeros.
pub open spec fn nat_text(n: nat) -> Seq<u8>
    decreases n,
{
    if n < 10 {
        seq![digit_char(n)]
    } else {
        nat_text(n / 10).push(digit_char(n % 10))
    }
}

pub open spec fn abs(h: int) -> nat {
    if h < 0 {
        (-h) as nat
    } else {
        h as nat
    }
}

/// `h` hundredths in plain decimal notation with exactly two fractional digits.
pub open spec fn hundredths_text(h: int) -> Seq<u8> {
    let a = abs(h);
    let sign = if h < 0 {
        seq![45u8]
    } else {
        Seq::<u8>::empty()
    };
    sign + nat_text(a / 100) + seq![46u8, digit_char((a / 10) % 10), digit_char(a % 10)]
}

/// The `re,im` form of one sample.
pub open spec fn sample_text(s: Sample) -> Seq<u8> {
    hundredths_text(s.re as int) + seq![44u8] + hundredths_text(s.im as int)
}

/// One `re,im` line, ended by a newline, per sample, in order.
pub open spec fn samples_text(s: Seq<Sample>) -> Seq<u8>
    decreases s.len(),
{
    if s.len() == 0 {
        Seq::empty()
    } else {
        samples_text(s.drop_last()) + sample_text(s.last()) + seq![10u8]
    }
}

fn write_nat(out: &mut Vec<u8>, n: u64)
    ensures
        final(out)@ == old(out)@ + nat_text(n as nat),
    decreases n,
{
    if n >= 10 {
        write_nat(out, n / 10);
    }
    out.push((48 + n % 10) as u8);
    assert(out@ =~= old(out)@ + nat_text(n as nat));
}

fn write_hundredths(out: &mut Vec<u8>, h: i64)
    ensures
        final(out)@ == old(out)@ + hundredths_text(h as int),
{
    let a: u64 = if h < 0 {
        (0 - (h as i128)) as u64
    } else {
        h as u64
    };
    assert(a as nat == abs(h as int));
    if h < 0 {
        out.push(45u8);
    }
    write_nat(out, a / 100);
    out.push(46u8);
    out.push((48 + (a / 10) % 10) as u8);
    out.push((48 + a % 10) as u8);
    assert(out@ =~= old(out)@ + hundredths_text(h as int));
}

/// Appends the `re,im` form of `s` to `out`.
pub fn write_sample(out: &mut Vec<u8>, s: &Sample)
    ensures
        final(out)@ == old(out)@ + sample_text(*s),
{
    write_hundredths(out, s.re);
    out.push(44u8);
    write_hundredths(out, s.im);
    assert(out@ =~= old(out)@ + sample_text(*s));
}

/// The contents of a data file: one `re,im` line per sample, in order.
pub fn encode_samples(samples: &Vec<Sample>) -> (r: Vec<u8>)
    ensures
        r@ == samples_text(samples@),
{
    let mut out: Vec<u8> = Vec::new();
    let mut i: usize = 0;
    while i < samples.len()
        invariant
            i <= samples.len(),
            out@ == samples_text(samples@.subrange(0, i as int)),
        decreases samples.len() - i,
    {
        write_sample(&mut out, &samples[i]);
        out.push(10u8);
        proof {
            let next = samples@.subrange(0, i + 1);
            assert(next.drop_last() =~= samples@.subrange(0, i as int));
            assert(out@ =~= samples_text(next));
        }
        i = i + 1;
    }
    assert(samples@.subrange(0, samples.len() as int) =~= samples@);
    out
}

} // verus!
