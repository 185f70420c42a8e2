//! Powers of two.
use vstd::prelude::*;

verus! {

/// Whether `n` is a power of two.
pub open spec fn is_pow2(n: nat) -> bool
    decreases n,
{
    n == 1 || (n > 0 && n % 2 == 0 && is_pow2(n / 2))
}

/// The first of `p`, `2 * p`, `4 * p`, ... that reaches `n`.
pub open spec fn doubled_to(p: nat, n: nat) -> nat
    decreases
            if p < n {
                n - p
            } else {
                0
            },
{
    if p >= n || p == 0 {
        p
    } else {
        doubled_to(2 * p, n)
    }
}

/// The smallest power of two that is at least `n`.
pub open spec fn ceil_pow2(n: nat) -> nat {
    doubled_to(1, n)
}

/// The largest power of two that a `usize` can hold.
pub open spec fn top_pow2() -> nat {
    (usize::MAX / 2 + 1) as nat
}

/// Two powers of two are equal or one is at least twice the other.
pub proof fn lemma_pow2_gap(a: nat, b: nat)
    requires
        is_pow2(a),
        is_pow2(b),
        a < b,
    ensures
        2 * a <= b,
    decreases a,
{
    if a > 1 {
        if b == 1 {
        } else {
            lemma_pow2_gap(a / 2, b / 2);
        }
    }
}

proof fn lemma_doubled_to(p: nat, n: nat)
    requires
        is_pow2(p),
    ensures
        is_pow2(doubled_to(p, n)),
        doubled_to(p, n) >= n,
        doubled_to(p, n) >= p,
        forall|b: nat| is_pow2(b) && b >= n && b >= p ==> doubled_to(p, n) <= b,
    decreases
            if p < n {
                n - p
            } else {
                0
            },
{
    if p < n {
        assert(is_pow2(2 * p)) by {
            assert((2 * p) / 2 == p);
        }
        lemma_doubled_to(2 * p, n);
        assert forall|b: nat| is_pow2(b) && b >= n && b >= p implies doubled_to(p, n) <= b by {
            lemma_pow2_gap(p, b);
        }
    }
}

/// `ceil_pow2(n)` is a power of two, reaches `n`, and no smaller one does.
pub proof fn lemma_ceil_pow2(n: nat)
    ensures
        is_pow2(ceil_pow2(n)),
        ceil_pow2(n) >= n,
        ceil_pow2(n) >= 1,
        forall|b: nat| is_pow2(b) && b >= n ==> ceil_pow2(n) <= b,
{
    lemma_doubled_to(1, n);
}

proof fn lemma_pow2_of_bits()
    ensures
        is_pow2(0x8000_0000),
        is_pow2(0x8000_0000_0000_0000),
{
    reveal_with_fuel(is_pow2, 65);
}

/// The largest power of two in a `usize` is one, and bounds all others.
pub proof fn lemma_top_pow2()
    ensures
        is_pow2(top_pow2()),
        top_pow2() == 0x8000_0000 || top_pow2() == 0x8000_0000_0000_0000,
        forall|b: nat| is_pow2(b) && b <= usize::MAX ==> b <= top_pow2(),
{
    lemma_pow2_of_bits();
    assert(usize::MAX == 0xffff_ffff || usize::MAX == 0xffff_ffff_ffff_ffff) by {
        assert(usize::BITS == 32 || usize::BITS == 64);
    }
    assert forall|b: nat| is_pow2(b) && b <= usize::MAX implies b <= top_pow2() by {
        if b > top_pow2() {
            lemma_pow2_gap(top_pow2(), b);
        }
    }
}

/// Whether `n` is a power of two.
pub fn is_power_of_two(n: usize) -> (yes: bool)
    ensures
        yes == is_pow2(n as nat),
{
    if n == 0 {
        return false;
    }
    let mut rest = n;
    while rest % 2 == 0
        invariant
            rest > 0,
            is_pow2(rest as nat) == is_pow2(n as nat),
        decreases rest,
    {
        rest = rest / 2;
    }
    rest == 1
}

/// The smallest power of two that is at least `n`.
pub fn next_power_of_two(n: usize) -> (power: usize)
    requires
        n <= top_pow2(),
    ensures
        power == ceil_pow2(n as nat),
{
    let mut power: usize = 1;
    proof {
        lemma_ceil_pow2(n as nat);
        lemma_top_pow2();
    }
    while power < n
        invariant
            power > 0,
            doubled_to(power as nat, n as nat) == ceil_pow2(n as nat),
            n <= top_pow2(),
        decreases
                if power < n {
                    n - power
                } else {
                    0
                },
    {
        power = power * 2;
    }
    power
}

/// Law: the powers of two are those of the exponents: one, and twice any of them.
pub proof fn law_powers_of_two_are_powers(n: nat)
    ensures
        is_pow2(n) <==> exists|e: nat| n == #[trigger] vstd::arithmetic::power2::pow2(e),
    decreases n,
{
    vstd::arithmetic::power2::lemma2_to64();
    if n == 1 {
        assert(n == vstd::arithmetic::power2::pow2(0));
    } else {
        if n > 0 && n % 2 == 0 {
            law_powers_of_two_are_powers(n / 2);
            if is_pow2(n / 2) {
                let e = choose|e: nat| n / 2 == #[trigger] vstd::arithmetic::power2::pow2(e);
                vstd::arithmetic::power2::lemma_pow2_unfold(e + 1);
                assert(n == vstd::arithmetic::power2::pow2(e + 1));
            }
        }
        if exists|e: nat| n == #[trigger] vstd::arithmetic::power2::pow2(e) {
            let e = choose|e: nat| n == #[trigger] vstd::arithmetic::power2::pow2(e);
            if e > 0 {
                vstd::arithmetic::power2::lemma_pow2_unfold(e);
                vstd::arithmetic::power2::lemma_pow2_pos((e - 1) as nat);
                assert(n / 2 == vstd::arithmetic::power2::pow2((e - 1) as nat));
            }
        }
    }
}

/// Law: the power of two for a number reaches it, and half of it does not.
pub proof fn law_the_next_power_is_the_smallest(n: nat)
    ensures
        is_pow2(ceil_pow2(n)),
        ceil_pow2(n) >= n,
        ceil_pow2(n) == 1 || ceil_pow2(n) < 2 * n,
        is_pow2(n) ==> ceil_pow2(n) == n,
{
    lemma_ceil_pow2(n);
    let top = ceil_pow2(n);
    if top != 1 && top >= 2 * n {
        assert(is_pow2(top / 2));
        assert(top / 2 >= n);
    }
}

} // verus!
