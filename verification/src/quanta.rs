//! Amounts of gas in whole quanta.
use vstd::prelude::*;
use crate::amount::{adds_up, exact, Amount};

verus! {

/// A number of quanta. Sums wrap around, so that addition is exact.
#[derive(Clone, Copy, Debug, PartialEq, Eq, Structural)]
pub struct Quanta {
    pub n: i64,
}

/// The integer in the range of `i64` that differs from `n` by a multiple of `2^64`.
pub open spec fn wrapped(n: int) -> i64 {
    let low = n % 0x1_0000_0000_0000_0000;
    if low < 0x8000_0000_0000_0000 {
        low as i64
    } else {
        (low - 0x1_0000_0000_0000_0000) as i64
    }
}

/// `n` divided by `d`, towards zero.
pub open spec fn quotient(n: int, d: int) -> int {
    if n >= 0 {
        n / d
    } else {
        -(-n / d)
    }
}

/// The largest `k` with `2^k <= n`, and 0 for `n == 0`.
pub open spec fn floor_log2(n: nat) -> nat
    decreases n,
{
    if n <= 1 {
        0
    } else {
        floor_log2(n / 2) + 1
    }
}

impl Quanta {
    fn wrap(n: i128) -> (r: Quanta)
        requires
            -0x2_0000_0000_0000_0000 <= n <= 0x2_0000_0000_0000_0000,
        ensures
            r.n == wrapped(n as int),
    {
        let low: i128 = (n + 0x4_0000_0000_0000_0000) % 0x1_0000_0000_0000_0000;
        if low < 0x8000_0000_0000_0000 {
            Quanta { n: low as i64 }
        } else {
            Quanta { n: (low - 0x1_0000_0000_0000_0000) as i64 }
        }
    }

    fn divide(n: i64, d: i128) -> (r: Quanta)
        requires
            0 < d,
        ensures
            r.n == quotient(n as int, d as int),
    {
        let wide: i128 = n as i128;
        if wide >= 0 {
            let q: i128 = wide / d;
            assert(0 <= n as int / d as int <= n) by (nonlinear_arith)
                requires
                    0 <= n,
                    0 < d,
            ;
            Quanta { n: q as i64 }
        } else {
            let m: i128 = -wide;
            let q: i128 = m / d;
            assert(0 <= m as int / d as int <= m) by (nonlinear_arith)
                requires
                    0 <= m,
                    0 < d,
            ;
            Quanta { n: (-q) as i64 }
        }
    }
}

impl Amount for Quanta {
    type Total = Quanta;

    open spec fn spec_zero() -> Self {
        Quanta { n: 0 }
    }

    open spec fn spec_from_count(n: u32) -> Self {
        Quanta { n: n as i64 }
    }

    open spec fn spec_plus(self, other: Self) -> Self {
        Quanta { n: wrapped(self.n + other.n) }
    }

    open spec fn spec_minus(self, other: Self) -> Self {
        Quanta { n: wrapped(self.n - other.n) }
    }

    open spec fn spec_negate(self) -> Self {
        Quanta { n: wrapped(-self.n) }
    }

    open spec fn spec_magnitude(self) -> Self {
        if self.n < 0 {
            Quanta { n: wrapped(-self.n) }
        } else {
            self
        }
    }

    open spec fn spec_share(self, n: u32) -> Self {
        Quanta { n: quotient(self.n as int, n as int) as i64 }
    }

    open spec fn spec_lt(self, other: Self) -> bool {
        self.n < other.n
    }

    open spec fn spec_le(self, other: Self) -> bool {
        self.n <= other.n
    }

    open spec fn spec_same(self, other: Self) -> bool {
        self.n == other.n
    }

    open spec fn spec_total_zero() -> Quanta {
        Quanta { n: 0 }
    }

    open spec fn spec_total_plus(total: Quanta, amount: Self) -> Quanta {
        total.spec_plus(amount)
    }

    /// The mean of no amounts is zero.
    open spec fn spec_mean(total: Quanta, n: usize) -> Self {
        if n == 0 {
            Quanta { n: 0 }
        } else {
            Quanta { n: quotient(total.n as int, n as int) as i64 }
        }
    }

    open spec fn spec_log2_floor(n: usize) -> usize {
        floor_log2(n as nat) as usize
    }

    fn zero() -> Self {
        Quanta { n: 0 }
    }

    fn from_count(n: u32) -> Self {
        Quanta { n: n as i64 }
    }

    fn plus(self, other: Self) -> Self {
        Quanta::wrap(self.n as i128 + other.n as i128)
    }

    fn minus(self, other: Self) -> Self {
        Quanta::wrap(self.n as i128 - other.n as i128)
    }

    fn negate(self) -> Self {
        Quanta::wrap(-(self.n as i128))
    }

    fn magnitude(self) -> Self {
        if self.n < 0 {
            Quanta::wrap(-(self.n as i128))
        } else {
            self
        }
    }

    fn share(self, n: u32) -> Self {
        Quanta::divide(self.n, n as i128)
    }

    fn lt(self, other: Self) -> bool {
        self.n < other.n
    }

    fn le(self, other: Self) -> bool {
        self.n <= other.n
    }

    fn same(self, other: Self) -> bool {
        self.n == other.n
    }

    fn total_zero() -> Quanta {
        Quanta { n: 0 }
    }

    fn total_plus(total: Quanta, amount: Self) -> Quanta {
        total.plus(amount)
    }

    fn mean(total: Quanta, n: usize) -> Self {
        if n == 0 {
            Quanta { n: 0 }
        } else {
            Quanta::divide(total.n, n as i128)
        }
    }

    fn log2_floor(n: usize) -> usize {
        let mut rest: usize = n;
        let mut log: usize = 0;
        while rest > 1
            invariant
                log + floor_log2(rest as nat) == floor_log2(n as nat),
                log + rest <= n,
            decreases rest,
        {
            rest = rest / 2;
            log = log + 1;
        }
        log
    }
}

/// Wrapping moves an integer by a multiple of `2^64`.
proof fn lemma_wrapped(n: int) -> (k: int)
    ensures
        wrapped(n) == n + k * 0x1_0000_0000_0000_0000,
{
    vstd::arithmetic::div_mod::lemma_fundamental_div_mod(n, 0x1_0000_0000_0000_0000);
    let q = n / 0x1_0000_0000_0000_0000;
    if n % 0x1_0000_0000_0000_0000 < 0x8000_0000_0000_0000 {
        -q
    } else {
        -q - 1
    }
}

/// Integers that differ by a multiple of `2^64` wrap to the same one.
proof fn lemma_congruent(n: int, m: int, k: int)
    requires
        n == m + k * 0x1_0000_0000_0000_0000,
    ensures
        wrapped(n) == wrapped(m),
{
    vstd::arithmetic::div_mod::lemma_mod_multiples_vanish(k, m, 0x1_0000_0000_0000_0000);
}

/// Wrapping in between changes no sum.
proof fn lemma_wrapped_sum(n: int, m: int)
    ensures
        wrapped(wrapped(n) + m) == wrapped(n + m),
{
    let k = lemma_wrapped(n);
    lemma_congruent(wrapped(n) + m, n + m, k);
}

proof fn lemma_sums(a: int, b: int, c: int)
    ensures
        wrapped(wrapped(a + b) + c) == wrapped(a + wrapped(b + c)),
{
    lemma_wrapped_sum(a + b, c);
    lemma_wrapped_sum(b + c, a);
}

proof fn lemma_differences(a: i64, b: i64)
    ensures
        wrapped(a - b) == wrapped(a + wrapped(-b)),
        wrapped(a + wrapped(-a)) == 0,
        wrapped(a as int) == a,
{
    lemma_wrapped_sum(-b, a as int);
    lemma_wrapped_sum(-a, a as int);
    assert(wrapped(0) == 0);
}

proof fn lemma_adds_up(a: Quanta, b: Quanta, c: Quanta)
    ensures
        adds_up(a, b, c),
{
    lemma_sums(a.n as int, b.n as int, c.n as int);
    lemma_differences(a.n, b.n);
}

/// Sums of quanta are exact.
#[verifier::spinoff_prover]
pub proof fn quanta_are_exact()
    ensures
        exact::<Quanta>(),
{
    assert forall|a: Quanta, b: Quanta, c: Quanta| #[trigger] adds_up(a, b, c) by {
        lemma_adds_up(a, b, c);
    }
}

/// Division goes towards zero: the quotient times the divisor falls short of what is divided, and
/// by less than the divisor.
pub proof fn quotients_fall_short(n: int, d: int)
    requires
        d > 0,
    ensures
        n >= 0 ==> quotient(n, d) * d <= n < quotient(n, d) * d + d && quotient(n, d) >= 0,
        n <= 0 ==> quotient(n, d) * d - d < n <= quotient(n, d) * d && quotient(n, d) <= 0,
        quotient(-n, d) == -quotient(n, d),
{
    let m = if n >= 0 {
        n
    } else {
        -n
    };
    let q = m / d;
    vstd::arithmetic::div_mod::lemma_fundamental_div_mod(m, d);
    vstd::arithmetic::div_mod::lemma_div_pos_is_pos(m, d);
    assert(q * d <= m < q * d + d) by {
        vstd::arithmetic::mul::lemma_mul_is_commutative(q, d);
    }
    assert((-q) * d == -(q * d)) by (nonlinear_arith);
    if n == 0 {
        assert(q == 0) by (nonlinear_arith)
            requires
                q * d <= 0,
                0 <= q,
                d > 0,
        ;
    }
}

/// Shares and means are quotients, however many parts there are.
pub proof fn quanta_are_divided(a: Quanta, parts: u32, n: usize)
    ensures
        parts > 0 ==> a.spec_share(parts).n == quotient(a.n as int, parts as int),
        n > 0 ==> Quanta::spec_mean(a, n).n == quotient(a.n as int, n as int),
        Quanta::spec_mean(a, 0).n == 0,
{
    if parts > 0 {
        lemma_quotient_fits(a.n, parts as int);
    }
    if n > 0 {
        lemma_quotient_fits(a.n, n as int);
    }
}

proof fn lemma_quotient_fits(n: i64, d: int)
    requires
        d > 0,
    ensures
        i64::MIN <= quotient(n as int, d) <= i64::MAX,
{
    quotients_fall_short(n as int, d);
    let q = quotient(n as int, d);
    let k = n as int;
    if k >= 0 {
        assert(q <= k) by (nonlinear_arith)
            requires
                q * d <= k,
                0 <= q,
                d > 0,
        ;
    } else {
        assert(q >= k) by (nonlinear_arith)
            requires
                k <= q * d,
                q <= 0,
                d > 0,
        ;
    }
}

/// The logarithm is the number of times that a number can be halved until one is left: it is `k` from
/// `2^k` on, and below `2^(k + 1)`.
pub proof fn logarithms_are_floors(n: nat)
    requires
        n > 0,
    ensures
        vstd::arithmetic::power2::pow2(floor_log2(n)) <= n < vstd::arithmetic::power2::pow2(
            floor_log2(n) + 1,
        ),
    decreases n,
{
    vstd::arithmetic::power2::lemma2_to64();
    if n > 1 {
        logarithms_are_floors(n / 2);
        let k = floor_log2(n / 2);
        vstd::arithmetic::power2::lemma_pow2_unfold(k + 1);
        vstd::arithmetic::power2::lemma_pow2_unfold(k + 2);
    }
}

} // verus!
