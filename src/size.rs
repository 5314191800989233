use vstd::prelude::*;

verus! {

/// `n` is a power of two (1, 2, 4, ...).
pub open spec fn is_pow2(n: nat) -> bool
    decreases n,
{
    if n == 1 {
        true
    } else if n == 0 || n % 2 == 1 {
        false
    } else {
        is_pow2(n / 2)
    }
}

/// Why a transform size was refused.
#[derive(Debug, Clone, Copy, PartialEq, Eq, Structural)]
pub enum SizeError {
    /// The size is not a power of two.
    NotPowerOfTwo,
}

/// Whether `n` is a power of two.
pub fn is_power_of_two(n: usize) -> (r: bool)
    ensures
        r == is_pow2(n as nat),
{
    let mut m: usize = n;
    while m > 1 && m % 2 == 0
        invariant
            is_pow2(n as nat) == is_pow2(m as nat),
        decreases m,
    {
        m = m / 2;
    }
    m == 1
}

/// Validates a requested signal size: only powers of two are accepted.
pub fn check_size(size: usize) -> (r: Result<usize, SizeError>)
    ensures
        r == (if is_pow2(size as nat) {
            Ok::<usize, SizeError>(size)
        } else {
            Err(SizeError::NotPowerOfTwo)
        }),
{
    if is_power_of_two(size) {
        Ok(size)
    } else {
        Err(SizeError::NotPowerOfTwo)
    }
}

proof fn lemma_pow2_double(n: nat)
    requires
        is_pow2(n),
    ensures
        is_pow2(2 * n),
{
    assert((2 * n) / 2 == n);
    assert((2 * n) % 2 == 0);
}

proof fn lemma_pow2_bounds(p: nat, n: nat)
    requires
        is_pow2(p),
        is_pow2(n),
        p < n,
    ensures
        2 * p <= n,
    decreases n,
{
    if p == 1 {
        assert(n != 1);
    } else {
        lemma_pow2_bounds(p / 2, n / 2);
    }
}

/// The smallest power of two that is at least `n`; `None` where it does
/// not fit in a `usize`.
pub fn next_power_of_two(n: usize) -> (r: Option<usize>)
    ensures
        r matches Some(p) ==> is_pow2(p as nat) && n <= p && (forall|q: nat|
            is_pow2(q) && n <= q ==> p <= q),
        r is None ==> forall|q: nat| is_pow2(q) && n <= q ==> q > usize::MAX,
{
    let mut p: usize = 1;
    while p < n
        invariant
            is_pow2(p as nat),
            forall|q: nat| is_pow2(q) && n <= q ==> p <= q,
        decreases usize::MAX - p,
    {
        if p > usize::MAX / 2 {
            proof {
                assert forall|q: nat| is_pow2(q) && n <= q implies q > usize::MAX by {
                    lemma_pow2_bounds(p as nat, q);
                }
            }
            return None;
        }
        proof {
            lemma_pow2_double(p as nat);
            assert forall|q: nat| is_pow2(q) && n <= q implies 2 * p <= q by {
                lemma_pow2_bounds(p as nat, q);
            }
        }
        p = p * 2;
    }
    Some(p)
}

} // verus!
