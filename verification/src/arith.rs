//! Arithmetic support for the fixed-point search: integer square root,
//! integer powers, and sums over sequences of machine integers.
use vstd::arithmetic::power::pow;
use vstd::prelude::*;

verus! {

/// The integer square root of a nonnegative integer, as the value the
/// square-root bracketing property determines uniquely.
pub open spec fn isqrt_spec(x: int) -> int {
    choose|r: int| 0 <= r && #[trigger] (r * r) <= x < (r + 1) * (r + 1)
}

/// The bracketing property determines the integer square root uniquely.
pub proof fn lemma_isqrt_unique(x: int, r: int)
    requires
        0 <= r,
        r * r <= x < (r + 1) * (r + 1),
    ensures
        isqrt_spec(x) == r,
{
    assert(0 <= r && r * r <= x < (r + 1) * (r + 1));
    let c = isqrt_spec(x);
    assert(0 <= c && c * c <= x < (c + 1) * (c + 1));
    assert(c == r) by (nonlinear_arith)
        requires
            0 <= r,
            0 <= c,
            r * r <= x < (r + 1) * (r + 1),
            c * c <= x < (c + 1) * (c + 1),
    ;
}

/// The integer square root: the largest `r` with `r * r <= x`.
pub fn isqrt(x: u64) -> (r: u64)
    ensures
        r * r <= x < (r + 1) * (r + 1),
        r == isqrt_spec(x as int),
{
    let mut lo: u64 = 0;
    let mut hi: u64 = 4294967296;
    while lo + 1 < hi
        invariant
            lo < hi <= 4294967296,
            lo * lo <= x,
            x < hi * hi,
        decreases hi - lo,
    {
        let mid = lo + (hi - lo) / 2;
        assert(lo < mid < hi);
        assert(mid * mid <= 0xffffffffffffffff) by (nonlinear_arith)
            requires
                0 <= mid < 4294967296,
        ;
        if mid * mid <= x {
            lo = mid;
        } else {
            hi = mid;
        }
    }
    proof {
        lemma_isqrt_unique(x as int, lo as int);
    }
    lo
}

/// `0 <= b` implies `0 <= b^e`.
pub proof fn lemma_pow_nonneg(b: int, e: nat)
    requires
        0 <= b,
    ensures
        0 <= pow(b, e),
    decreases e,
{
    reveal(pow);
    if e > 0 {
        lemma_pow_nonneg(b, (e - 1) as nat);
        assert(0 <= b * pow(b, (e - 1) as nat)) by (nonlinear_arith)
            requires
                0 <= b,
                0 <= pow(b, (e - 1) as nat),
        ;
    }
}

/// Powers are monotone in the base on the nonnegative integers.
pub proof fn lemma_pow_base_monotone(a: int, b: int, e: nat)
    requires
        0 <= a <= b,
    ensures
        pow(a, e) <= pow(b, e),
    decreases e,
{
    reveal(pow);
    if e > 0 {
        lemma_pow_base_monotone(a, b, (e - 1) as nat);
        lemma_pow_nonneg(a, (e - 1) as nat);
        assert(a * pow(a, (e - 1) as nat) <= b * pow(b, (e - 1) as nat)) by (nonlinear_arith)
            requires
                0 <= a <= b,
                0 <= pow(a, (e - 1) as nat) <= pow(b, (e - 1) as nat),
        ;
    }
}

/// For an exponent of at least 1, powers are superadditive on the
/// nonnegative integers: `a^e + b^e <= (a + b)^e`.
pub proof fn lemma_pow_superadditive(a: int, b: int, e: nat)
    requires
        0 <= a,
        0 <= b,
        1 <= e,
    ensures
        pow(a, e) + pow(b, e) <= pow(a + b, e),
    decreases e,
{
    reveal(pow);
    if e == 1 {
        vstd::arithmetic::power::lemma_pow1(a);
        vstd::arithmetic::power::lemma_pow1(b);
        vstd::arithmetic::power::lemma_pow1(a + b);
    } else {
        let e1 = (e - 1) as nat;
        lemma_pow_superadditive(a, b, e1);
        lemma_pow_nonneg(a, e1);
        lemma_pow_nonneg(b, e1);
        assert(a * pow(a, e1) + b * pow(b, e1) <= (a + b) * pow(a + b, e1)) by (nonlinear_arith)
            requires
                0 <= a,
                0 <= b,
                0 <= pow(a, e1),
                0 <= pow(b, e1),
                pow(a, e1) + pow(b, e1) <= pow(a + b, e1),
        ;
    }
}

/// `base^exp`, computed by repeated multiplication.
pub fn pow_u128(base: u64, exp: u32) -> (r: u128)
    requires
        pow(base as int, exp as nat) <= u128::MAX,
    ensures
        r == pow(base as int, exp as nat),
{
    proof {
        reveal(pow);
    }
    let mut r: u128 = 1;
    let mut i: u32 = 0;
    while i < exp
        invariant
            i <= exp,
            r == pow(base as int, i as nat),
            pow(base as int, exp as nat) <= u128::MAX,
        decreases exp - i,
    {
        proof {
            reveal(pow);
            assert(pow(base as int, (i + 1) as nat) == base * pow(base as int, i as nat));
            if base == 0 {
                vstd::arithmetic::power::lemma0_pow((i + 1) as nat);
                vstd::arithmetic::power::lemma0_pow(exp as nat);
            } else {
                vstd::arithmetic::power::lemma_pow_increases(
                    base as nat,
                    (i + 1) as nat,
                    exp as nat,
                );
            }
            lemma_pow_nonneg(base as int, i as nat);
            assert(pow(base as int, (i + 1) as nat) <= u128::MAX);
            assert(r * (base as u128) == pow(base as int, (i + 1) as nat)) by (nonlinear_arith)
                requires
                    r == pow(base as int, i as nat),
                    pow(base as int, (i + 1) as nat) == base * pow(base as int, i as nat),
            ;
        }
        r = r * (base as u128);
        i = i + 1;
    }
    r
}

/// The sum of a sequence of 128-bit unsigned integers, as a mathematical
/// integer.
pub open spec fn sum_u128(s: Seq<u128>) -> int
    decreases s.len(),
{
    if s.len() == 0 {
        0
    } else {
        s[0] + sum_u128(s.drop_first())
    }
}

pub proof fn lemma_sum_u128_nonneg(s: Seq<u128>)
    ensures
        0 <= sum_u128(s),
    decreases s.len(),
{
    if s.len() > 0 {
        lemma_sum_u128_nonneg(s.drop_first());
    }
}

/// Appending one element adds it to the sum.
pub proof fn lemma_sum_u128_push(s: Seq<u128>, v: u128)
    ensures
        sum_u128(s.push(v)) == sum_u128(s) + v,
    decreases s.len(),
{
    if s.len() == 0 {
        assert(s.push(v).drop_first() =~= Seq::<u128>::empty());
        assert(sum_u128(s.push(v)) == v + sum_u128(Seq::<u128>::empty()));
    } else {
        assert(s.push(v).drop_first() =~= s.drop_first().push(v));
        lemma_sum_u128_push(s.drop_first(), v);
        assert(sum_u128(s.push(v)) == s[0] + sum_u128(s.drop_first().push(v)));
    }
}

/// Replacing one element changes the sum by the difference.
pub proof fn lemma_sum_u128_update(s: Seq<u128>, i: int, v: u128)
    requires
        0 <= i < s.len(),
    ensures
        sum_u128(s.update(i, v)) == sum_u128(s) - s[i] + v,
    decreases s.len(),
{
    if i == 0 {
        assert(s.update(0, v).drop_first() =~= s.drop_first());
    } else {
        assert(s.update(i, v).drop_first() =~= s.drop_first().update(i - 1, v));
        lemma_sum_u128_update(s.drop_first(), i - 1, v);
    }
}

/// A sequence of zeroes sums to zero.
pub proof fn lemma_sum_u128_zero(s: Seq<u128>)
    requires
        forall|i: int| 0 <= i < s.len() ==> s[i] == 0,
    ensures
        sum_u128(s) == 0,
    decreases s.len(),
{
    if s.len() > 0 {
        lemma_sum_u128_zero(s.drop_first());
    }
}

} // verus!
