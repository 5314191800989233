use vstd::prelude::*;

use crate::text::{abs, digit_char, hundredths_text, is_digit, nat_text, sample_text, Sample};

verus! {

/// A plain decimal number read from text: `(-1)^negative * digits / 10^scale`.
#[derive(Debug, Clone, Copy, PartialEq, Eq, Structural)]
pub struct Decimal {
    pub negative: bool,
    pub digits: u64,
    pub scale: usize,
}

/// Both halves of one `re,im` line of a candidate's output.
#[derive(Debug, Clone, Copy, PartialEq, Eq, Structural)]
pub struct Reading {
    pub re: Decimal,
    pub im: Decimal,
}

/// Why a line of a candidate's output could not be read.
#[derive(Debug, Clone, Copy, PartialEq, Eq, Structural)]
pub enum LineError {
    /// The line holds no comma.
    MissingComma,
    /// A half of the line is not a plain decimal number.
    BadNumber,
}

/// Index of the first `c` in `s` at or after `i`, or -1.
pub open spec fn first_index(s: Seq<u8>, c: u8, i: int) -> int
    decreases s.len() - i,
{
    if i < 0 || i >= s.len() {
        -1
    } else if s[i] == c {
        i
    } else {
        first_index(s, c, i + 1)
    }
}

/// Reads decimal digits left to right onto `acc`; `None` on a non-digit or
/// when the value leaves `u64`.
pub open spec fn accumulate(acc: nat, s: Seq<u8>) -> Option<nat>
    decreases s.len(),
{
    if s.len() == 0 {
        Some(acc)
    } else if !is_digit(s[0]) {
        None
    } else {
        let a = acc * 10 + (s[0] as int - 48);
        if a > u64::MAX {
            None
        } else {
            accumulate(a as nat, s.drop_first())
        }
    }
}

/// A plain decimal: an optional sign, digits, at most one point, at least
/// one digit, and a digit value that fits in `u64`.
pub open spec fn decimal_spec(s: Seq<u8>) -> Option<Decimal> {
    let signed = s.len() > 0 && (s[0] == 45 || s[0] == 43);
    let negative = s.len() > 0 && s[0] == 45;
    let body = if signed {
        s.drop_first()
    } else {
        s
    };
    let k = first_index(body, 46, 0);
    let ip = if k < 0 {
        body
    } else {
        body.subrange(0, k)
    };
    let fp = if k < 0 {
        Seq::<u8>::empty()
    } else {
        body.subrange(k + 1, body.len() as int)
    };
    if ip.len() + fp.len() == 0 {
        None
    } else {
        match accumulate(0, ip) {
            None => None,
            Some(a) => match accumulate(a, fp) {
                None => None,
                Some(d) => Some(Decimal { negative, digits: d as u64, scale: fp.len() as usize }),
            },
        }
    }
}

/// A line split at its first comma, each half a plain decimal.
pub open spec fn line_spec(s: Seq<u8>) -> Result<Reading, LineError> {
    let k = first_index(s, 44, 0);
    if k < 0 {
        Err(LineError::MissingComma)
    } else {
        match (decimal_spec(s.subrange(0, k)), decimal_spec(s.subrange(k + 1, s.len() as int))) {
            (Some(re), Some(im)) => Ok(Reading { re, im }),
            _ => Err(LineError::BadNumber),
        }
    }
}

pub proof fn lemma_first_index(s: Seq<u8>, c: u8, i: int, m: int)
    requires
        0 <= i <= m <= s.len(),
        forall|j: int| i <= j < m ==> s[j] != c,
        m == s.len() || s[m] == c,
    ensures
        first_index(s, c, i) == (if m == s.len() {
            -1
        } else {
            m
        }),
    decreases m - i,
{
    if i < m {
        lemma_first_index(s, c, i + 1, m);
    }
}

pub open spec fn pow10(n: nat) -> nat
    decreases n,
{
    if n == 0 {
        1
    } else {
        10 * pow10((n - 1) as nat)
    }
}

/// The signed numerator of `d` over `10^d.scale`.
pub open spec fn decimal_num(d: Decimal) -> int {
    if d.negative {
        -(d.digits as int)
    } else {
        d.digits as int
    }
}

/// `d` and `h` hundredths are the same number.
pub open spec fn equals_hundredths(d: Decimal, h: int) -> bool {
    decimal_num(d) * 100 == h * pow10(d.scale as nat)
}

proof fn lemma_pow10_step(n: nat)
    ensures
        pow10(n + 2) == 100 * pow10(n),
        pow10(n) >= 1,
    decreases n,
{
    assert(pow10(n + 2) == 10 * pow10(n + 1));
    assert(pow10(n + 1) == 10 * pow10(n));
    if n > 0 {
        lemma_pow10_step((n - 1) as nat);
    }
}

proof fn lemma_pow10_mono(a: nat, b: nat)
    requires
        a <= b,
    ensures
        pow10(a) <= pow10(b),
    decreases b,
{
    if a < b {
        lemma_pow10_mono(a, (b - 1) as nat);
    }
}

/// Whether the decimal `d` is exactly `h` hundredths.
pub fn decimal_equals_hundredths(d: &Decimal, h: i64) -> (r: bool)
    ensures
        r == equals_hundredths(*d, h as int),
{
    let a: u128 = if h < 0 {
        (0 - (h as i128)) as u128
    } else {
        h as u128
    };
    let digits = d.digits as u128;
    proof {
        lemma_pow10_step(d.scale as nat);
        lemma_pow10_mono(0, d.scale as nat);
    }
    if digits == 0 || a == 0 {
        proof {
            if digits != 0 {
                assert(decimal_num(*d) * 100 != 0) by (nonlinear_arith)
                    requires decimal_num(*d) != 0;
            }
            if a != 0 {
                assert((h as int) * pow10(d.scale as nat) != 0) by (nonlinear_arith)
                    requires h != 0, pow10(d.scale as nat) >= 1;
            }
        }
        return digits == 0 && a == 0;
    }
    if d.negative != (h < 0) {
        proof {
            let p = pow10(d.scale as nat) as int;
            let n = decimal_num(*d);
            assert(n * 100 != (h as int) * p) by (nonlinear_arith)
                requires p >= 1, n != 0, h != 0, (n < 0) != (h < 0);
        }
        return false;
    }
    assert(equals_hundredths(*d, h as int) == (digits * 100 == a * pow10(d.scale as nat))) by (nonlinear_arith)
        requires
            decimal_num(*d) == (if d.negative { -(digits as int) } else { digits as int }),
            h as int == (if h < 0 { -(a as int) } else { a as int }),
            d.negative == (h < 0),
            equals_hundredths(*d, h as int) == (decimal_num(*d) * 100 == (h as int) * pow10(d.scale as nat));
    if d.scale <= 2 {
        let f: u128 = if d.scale == 0 {
            100
        } else if d.scale == 1 {
            10
        } else {
            1
        };
        proof {
            let sc = d.scale as nat;
            assert(pow10(0) == 1);
            assert(pow10(1) == 10);
            assert(pow10(2) == 100);
            assert(f * pow10(sc) == 100);
            assert((digits * 100 == a * pow10(sc)) == (digits * f == a)) by (nonlinear_arith)
                requires f * pow10(sc) == 100, pow10(sc) >= 1;
        }
        return digits * f == a;
    }
    let mut m: u128 = a;
    let mut k: usize = 2;
    assert(pow10(0) == 1);
    assert(m == a * pow10(0));
    while k < d.scale && m <= digits
        invariant
            2 <= k <= d.scale,
            1 <= a <= m,
            m <= 10 * (u64::MAX as u128),
            m == a * pow10((k - 2) as nat),
            digits <= u64::MAX,
        decreases d.scale - k,
    {
        m = m * 10;
        k = k + 1;
        proof {
            assert(pow10((k - 2) as nat) == 10 * pow10((k - 3) as nat));
            assert(m == a * pow10((k - 2) as nat)) by (nonlinear_arith)
                requires m == (a * pow10((k - 3) as nat)) * 10, pow10((k - 2) as nat) == 10 * pow10((k - 3) as nat);
        }
    }
    proof {
        let e = (d.scale - 2) as nat;
        lemma_pow10_step(e);
        lemma_pow10_mono((k - 2) as nat, e);
        assert(a * pow10(d.scale as nat) == 100 * (a * pow10(e))) by (nonlinear_arith)
            requires pow10(d.scale as nat) == 100 * pow10(e), d.scale as nat == e + 2;
        assert(a * pow10((k - 2) as nat) <= a * pow10(e)) by (nonlinear_arith)
            requires pow10((k - 2) as nat) <= pow10(e), a >= 1;
    }
    k == d.scale && m == digits
}

/// The decimal that the text of `h` hundredths reads as.
pub open spec fn hundredths_decimal(h: int) -> Decimal {
    Decimal { negative: h < 0, digits: abs(h) as u64, scale: 2 }
}

proof fn lemma_accumulate_concat(acc: nat, s: Seq<u8>, t: Seq<u8>)
    ensures
        accumulate(acc, s + t) == (match accumulate(acc, s) {
            Some(b) => accumulate(b, t),
            None => None,
        }),
    decreases s.len(),
{
    if s.len() == 0 {
        assert(s + t =~= t);
    } else {
        assert((s + t).drop_first() =~= s.drop_first() + t);
        assert((s + t)[0] == s[0]);
        let a = acc * 10 + (s[0] as int - 48);
        if is_digit(s[0]) && a <= u64::MAX {
            lemma_accumulate_concat(a as nat, s.drop_first(), t);
        }
    }
}

proof fn lemma_nat_text(n: nat)
    requires
        n <= u64::MAX,
    ensures
        nat_text(n).len() >= 1,
        forall|i: int| 0 <= i < nat_text(n).len() ==> is_digit(#[trigger] nat_text(n)[i]),
        accumulate(0, nat_text(n)) == Some(n),
    decreases n,
{
    let d = seq![digit_char(n % 10)];
    assert(d.drop_first() =~= Seq::<u8>::empty());
    assert(d[0] as int - 48 == n % 10);
    assert((n / 10) * 10 + n % 10 == n);
    assert(accumulate((n / 10) * 10 + n % 10, Seq::<u8>::empty()) == Some(n));
    if n < 10 {
        assert(nat_text(n) == d);
    } else {
        lemma_nat_text(n / 10);
        assert(nat_text(n) =~= nat_text(n / 10) + d);
        lemma_accumulate_concat(0, nat_text(n / 10), d);
    }
}

proof fn lemma_digit_split(a: nat)
    ensures
        (a / 100) * 100 + ((a / 10) % 10) * 10 + a % 10 == a,
{
    assert(a == (a / 10) * 10 + a % 10);
    assert(a / 10 == ((a / 10) / 10) * 10 + (a / 10) % 10);
    assert((a / 10) / 10 == a / 100);
}

proof fn lemma_accumulate_two(q: nat, d1: nat, d2: nat)
    requires
        d1 < 10,
        d2 < 10,
        q * 100 + d1 * 10 + d2 <= u64::MAX,
    ensures
        accumulate(q, seq![digit_char(d1), digit_char(d2)]) == Some(q * 100 + d1 * 10 + d2),
{
    let fp = seq![digit_char(d1), digit_char(d2)];
    let last = seq![digit_char(d2)];
    assert(fp.drop_first() =~= last);
    assert(last.drop_first() =~= Seq::<u8>::empty());
    assert(fp[0] as int - 48 == d1);
    assert(last[0] as int - 48 == d2);
    assert((q * 10 + d1) * 10 + d2 == q * 100 + d1 * 10 + d2);
    assert(q * 10 + d1 <= u64::MAX);
    assert(accumulate((q * 10 + d1) * 10 + d2, Seq::<u8>::empty()) == Some(q * 100 + d1 * 10 + d2));
    assert(accumulate(q * 10 + d1, last) == accumulate((q * 10 + d1) * 10 + d2, Seq::<u8>::empty()));
    assert(accumulate(q, fp) == accumulate(q * 10 + d1, last));
}

proof fn lemma_hundredths_shape(h: int)
    requires
        i64::MIN <= h <= i64::MAX,
    ensures
        ({
            let a = abs(h);
            let ip = nat_text(a / 100);
            let body = ip + seq![46u8] + seq![digit_char((a / 10) % 10), digit_char(a % 10)];
            &&& ip.len() >= 1
            &&& forall|j: int| 0 <= j < ip.len() ==> is_digit(#[trigger] ip[j])
            &&& accumulate(0, ip) == Some(a / 100)
            &&& hundredths_text(h) == if h < 0 { seq![45u8] + body } else { body }
            &&& forall|i: int| 0 <= i < hundredths_text(h).len() ==> #[trigger] hundredths_text(h)[i] != 44
        }),
{
    let a = abs(h);
    let ip = nat_text(a / 100);
    lemma_nat_text(a / 100);
    let fp = seq![digit_char((a / 10) % 10), digit_char(a % 10)];
    let body = ip + seq![46u8] + fp;
    let s = hundredths_text(h);
    assert(seq![46u8, digit_char((a / 10) % 10), digit_char(a % 10)] =~= seq![46u8] + fp);
    if h < 0 {
        assert(s =~= seq![45u8] + body);
    } else {
        assert(s =~= body);
    }
    assert forall|i: int| 0 <= i < s.len() implies #[trigger] s[i] != 44 by {
        if h < 0 && i == 0 {
        } else {
            let j = if h < 0 { i - 1 } else { i };
            assert(s[i] == body[j]);
            if j < ip.len() {
                assert(body[j] == ip[j]);
                assert(is_digit(ip[j]));
            }
        }
    }
}

proof fn lemma_hundredths_round_trip(h: int)
    requires
        i64::MIN <= h <= i64::MAX,
    ensures
        decimal_spec(hundredths_text(h)) == Some(hundredths_decimal(h)),
        forall|i: int| 0 <= i < hundredths_text(h).len() ==> #[trigger] hundredths_text(h)[i] != 44,
        equals_hundredths(hundredths_decimal(h), h),
{
    let a = abs(h);
    let q = a / 100;
    let d1 = (a / 10) % 10;
    let d2 = a % 10;
    lemma_hundredths_shape(h);
    let ip = nat_text(q);
    let fp = seq![digit_char(d1), digit_char(d2)];
    let body = ip + seq![46u8] + fp;
    let s = hundredths_text(h);
    if h < 0 {
        assert(s.drop_first() =~= body);
    } else {
        assert(s[0] == ip[0]);
    }
    assert forall|j: int| 0 <= j < ip.len() implies body[j] != 46 by {
        assert(body[j] == ip[j]);
        assert(is_digit(ip[j]));
    }
    lemma_first_index(body, 46, 0, ip.len() as int);
    assert(body.subrange(0, ip.len() as int) =~= ip);
    assert(body.subrange(ip.len() as int + 1, body.len() as int) =~= fp);
    lemma_digit_split(a);
    lemma_accumulate_two(q, d1, d2);
    assert(pow10(2) == 100) by {
        assert(pow10(0) == 1);
        assert(pow10(1) == 10);
    }
}

/// Writing a sample as a `re,im` line and reading that line back gives two
/// decimals equal to the sample's components, exactly.
pub proof fn lemma_sample_round_trip(s: Sample)
    ensures
        line_spec(sample_text(s)) == Ok::<Reading, LineError>(
            Reading { re: hundredths_decimal(s.re as int), im: hundredths_decimal(s.im as int) },
        ),
        equals_hundredths(hundredths_decimal(s.re as int), s.re as int),
        equals_hundredths(hundredths_decimal(s.im as int), s.im as int),
{
    lemma_hundredths_round_trip(s.re as int);
    lemma_hundredths_round_trip(s.im as int);
    let t = sample_text(s);
    let r = hundredths_text(s.re as int);
    let i = hundredths_text(s.im as int);
    assert forall|j: int| 0 <= j < r.len() implies t[j] != 44 by {
        assert(t[j] == r[j]);
    }
    lemma_first_index(t, 44, 0, r.len() as int);
    assert(t.subrange(0, r.len() as int) =~= r);
    assert(t.subrange(r.len() as int + 1, t.len() as int) =~= i);
}

fn find_byte(v: &Vec<u8>, lo: usize, hi: usize, c: u8) -> (r: usize)
    requires
        lo <= hi <= v.len(),
    ensures
        lo <= r <= hi,
        r < hi ==> v@[r as int] == c,
        forall|j: int| lo <= j < r ==> v@[j] != c,
{
    let mut i: usize = lo;
    while i < hi && v[i] != c
        invariant
            lo <= i <= hi <= v.len(),
            forall|j: int| lo <= j < i ==> v@[j] != c,
        decreases hi - i,
    {
        i = i + 1;
    }
    i
}

fn accumulate_digits(v: &Vec<u8>, lo: usize, hi: usize, acc: u64) -> (r: Option<u64>)
    requires
        lo <= hi <= v.len(),
    ensures
        r matches Some(x) ==> accumulate(acc as nat, v@.subrange(lo as int, hi as int)) == Some(
            x as nat,
        ),
        r is None ==> accumulate(acc as nat, v@.subrange(lo as int, hi as int)) is None,
{
    let mut a: u64 = acc;
    let mut i: usize = lo;
    while i < hi
        invariant
            lo <= i <= hi <= v.len(),
            accumulate(acc as nat, v@.subrange(lo as int, hi as int)) == accumulate(
                a as nat,
                v@.subrange(i as int, hi as int),
            ),
        decreases hi - i,
    {
        let b = v[i];
        assert(v@.subrange(i as int, hi as int).drop_first() =~= v@.subrange(i + 1, hi as int));
        if b < 48 || b > 57 {
            return None;
        }
        let next: u128 = a as u128 * 10 + (b - 48) as u128;
        if next > u64::MAX as u128 {
            return None;
        }
        a = next as u64;
        i = i + 1;
    }
    Some(a)
}

/// Reads `v[lo..hi]` as a plain decimal.
pub fn parse_decimal(v: &Vec<u8>, lo: usize, hi: usize) -> (r: Option<Decimal>)
    requires
        lo <= hi <= v.len(),
    ensures
        r == decimal_spec(v@.subrange(lo as int, hi as int)),
{
    let ghost s = v@.subrange(lo as int, hi as int);
    let mut i: usize = lo;
    let mut negative = false;
    if i < hi && (v[i] == 45 || v[i] == 43) {
        negative = v[i] == 45;
        i = i + 1;
    }
    let ghost body = v@.subrange(i as int, hi as int);
    assert(body =~= (if s.len() > 0 && (s[0] == 45 || s[0] == 43) {
        s.drop_first()
    } else {
        s
    }));
    let k = find_byte(v, i, hi, 46);
    proof {
        lemma_first_index(body, 46, 0, k - i);
    }
    let fstart: usize = if k < hi {
        k + 1
    } else {
        hi
    };
    assert(v@.subrange(i as int, k as int) =~= (if k < hi {
        body.subrange(0, k - i)
    } else {
        body
    }));
    assert(v@.subrange(fstart as int, hi as int) =~= (if k < hi {
        body.subrange(k - i + 1, body.len() as int)
    } else {
        Seq::<u8>::empty()
    }));
    if k - i + (hi - fstart) == 0 {
        return None;
    }
    match accumulate_digits(v, i, k, 0) {
        None => None,
        Some(a) => match accumulate_digits(v, fstart, hi, a) {
            None => None,
            Some(d) => Some(Decimal { negative, digits: d, scale: hi - fstart }),
        },
    }
}

/// Reads `v[lo..hi]` as a `re,im` line.
pub fn parse_line_range(v: &Vec<u8>, lo: usize, hi: usize) -> (r: Result<Reading, LineError>)
    requires
        lo <= hi <= v.len(),
    ensures
        r == line_spec(v@.subrange(lo as int, hi as int)),
{
    let ghost s = v@.subrange(lo as int, hi as int);
    let k = find_byte(v, lo, hi, 44);
    proof {
        lemma_first_index(s, 44, 0, k - lo);
    }
    if k == hi {
        return Err(LineError::MissingComma);
    }
    assert(v@.subrange(lo as int, k as int) =~= s.subrange(0, k - lo));
    assert(v@.subrange(k + 1, hi as int) =~= s.subrange(k - lo + 1, s.len() as int));
    let re = parse_decimal(v, lo, k);
    let im = parse_decimal(v, k + 1, hi);
    match (re, im) {
        (Some(re), Some(im)) => Ok(Reading { re, im }),
        _ => Err(LineError::BadNumber),
    }
}

/// Reads one whole line of a candidate's output.
pub fn parse_line(line: &Vec<u8>) -> (r: Result<Reading, LineError>)
    ensures
        r == line_spec(line@),
{
    assert(line@.subrange(0, line.len() as int) =~= line@);
    parse_line_range(line, 0, line.len())
}

} // verus!
