use vstd::prelude::*;

use core::cmp::Ordering;

verus! {

/// A signed value of `N` bits.
#[derive(Copy, Clone)]
struct SignedBits<const N: usize>(i128);

impl<const N: usize> SignedBits<N> {
    fn discriminant(self) -> (r: Self)
        ensures
            r == self,
    {
        self
    }

    /// The same bits read as unsigned.
    fn as_unsigned(self) -> (r: Bits<N>)
        ensures
            r.0 == self.0 as u128,
    {
        Bits(self.0 as u128)
    }

    fn add(self, rhs: Self) -> (r: Self)
        requires
            i128::MIN <= self.0 + rhs.0 <= i128::MAX,
        ensures
            r.0 == self.0 + rhs.0,
    {
        SignedBits(self.0 + rhs.0)
    }

    fn bitand(self, rhs: Self) -> (r: Self)
        ensures
            r.0 == self.0 & rhs.0,
    {
        SignedBits(self.0 & rhs.0)
    }

    fn eq(&self, other: &SignedBits<N>) -> (r: bool)
        ensures
            r == (self.0 == other.0),
    {
        self.0 == other.0
    }

    fn partial_cmp(&self, other: &SignedBits<N>) -> (r: Option<Ordering>)
        ensures
            r == Some(
                if self.0 < other.0 {
                    Ordering::Less
                } else if self.0 == other.0 {
                    Ordering::Equal
                } else {
                    Ordering::Greater
                },
            ),
    {
        if self.0 < other.0 {
            Some(Ordering::Less)
        } else if self.0 == other.0 {
            Some(Ordering::Equal)
        } else {
            Some(Ordering::Greater)
        }
    }
}

/// An unsigned value of `N` bits.
#[derive(Copy, Clone)]
struct Bits<const N: usize>(u128);

impl<const N: usize> Bits<N> {
    fn discriminant(self) -> (r: Self)
        ensures
            r == self,
    {
        self
    }

    /// The same bits read as signed.
    fn as_signed(self) -> (r: SignedBits<N>)
        ensures
            r.0 == self.0 as i128,
    {
        SignedBits(self.0 as i128)
    }

    fn bitand(self, rhs: Self) -> (r: Self)
        ensures
            r.0 == self.0 & rhs.0,
    {
        Bits(self.0 & rhs.0)
    }

    fn add(self, rhs: Self) -> (r: Self)
        requires
            self.0 + rhs.0 <= u128::MAX,
        ensures
            r.0 == self.0 + rhs.0,
    {
        Bits(self.0 + rhs.0)
    }

    fn add_u128(self, rhs: u128) -> (r: Self)
        requires
            self.0 + rhs <= u128::MAX,
        ensures
            r.0 == self.0 + rhs,
    {
        Bits(self.0 + rhs)
    }

    fn u128_add(lhs: u128, rhs: Bits<N>) -> (r: Bits<N>)
        requires
            lhs + rhs.0 <= u128::MAX,
        ensures
            r.0 == lhs + rhs.0,
    {
        Bits(lhs + rhs.0)
    }

    fn eq(&self, other: &Bits<N>) -> (r: bool)
        ensures
            r == (self.0 == other.0),
    {
        self.0 == other.0
    }

    fn eq_u128(&self, other: &u128) -> (r: bool)
        ensures
            r == (self.0 == *other),
    {
        self.0 == *other
    }

    fn u128_eq(lhs: &u128, other: &Bits<N>) -> (r: bool)
        ensures
            r == (*lhs == other.0),
    {
        *lhs == other.0
    }

    fn partial_cmp(&self, other: &Bits<N>) -> (r: Option<Ordering>)
        ensures
            r == Some(compare_u128(self.0, other.0)),
    {
        Some(cmp_u128(self.0, other.0))
    }

    fn partial_cmp_u128(&self, other: &u128) -> (r: Option<Ordering>)
        ensures
            r == Some(compare_u128(self.0, *other)),
    {
        Some(cmp_u128(self.0, *other))
    }

    fn u128_partial_cmp(lhs: &u128, other: &Bits<N>) -> (r: Option<Ordering>)
        ensures
            r == Some(compare_u128(*lhs, other.0)),
    {
        Some(cmp_u128(*lhs, other.0))
    }

    /// Element of `array` at the position held in `self`.
    fn index_into<'a, T, const M: usize>(self, array: &'a [T; M]) -> (r: &'a T)
        requires
            self.0 < M,
        ensures
            *r == array@[self.0 as int],
    {
        let i = usize_of(self.0);
        &array[i]
    }

    /// The value `1` when any bit is set.
    fn any(self) -> (r: Bits<1>)
        ensures
            r.0 == (if self.0 != 0 {
                1u128
            } else {
                0u128
            }),
    {
        from_bool(self.0 != 0)
    }

    /// The value `1` when all `N` bits are set.
    fn all(self) -> (r: Bits<1>)
        requires
            1 <= N <= 128,
        ensures
            r.0 == (if self.0 == all_ones(N as nat) {
                1u128
            } else {
                0u128
            }),
    {
        let mask = low_mask(N);
        from_bool(self.0 == mask)
    }

    /// The value `1` when an odd number of bits is set.
    fn xor(self) -> (r: Bits<1>)
        ensures
            r.0 == (if popcount(self.0 as nat, 128) % 2 == 1 {
                1u128
            } else {
                0u128
            }),
    {
        let mut v: u128 = self.0;
        let mut n: u32 = 0;
        let mut i: u32 = 0;
        proof {
            assert(crate::util::pow2(0) == 1);
        }
        while i < 128
            invariant
                i <= 128,
                n <= i,
                v == self.0 as nat / crate::util::pow2(i as nat),
                n == popcount(self.0 as nat, i as nat),
            decreases 128 - i,
        {
            proof {
                lemma_popcount_step(self.0 as nat, i as nat);
                crate::util::lemma_pow2_pos(i as nat);
                vstd::arithmetic::div_mod::lemma_div_denominator(
                    self.0 as int,
                    crate::util::pow2(i as nat) as int,
                    2,
                );
            }
            if v % 2 == 1 {
                n = n + 1;
            }
            v = v / 2;
            i = i + 1;
        }
        from_bool(n % 2 == 1)
    }
}

/// `x as usize`, for values that fit.
fn usize_of(x: u128) -> (r: usize)
    requires
        x <= usize::MAX,
    ensures
        r == x,
{
    x as usize
}

pub open spec fn compare_u128(a: u128, b: u128) -> Ordering {
    if a < b {
        Ordering::Less
    } else if a == b {
        Ordering::Equal
    } else {
        Ordering::Greater
    }
}

fn cmp_u128(a: u128, b: u128) -> (r: Ordering)
    ensures
        r == compare_u128(a, b),
{
    if a < b {
        Ordering::Less
    } else if a == b {
        Ordering::Equal
    } else {
        Ordering::Greater
    }
}

/// `2^n - 1`: the value with the low `n` bits set.
pub open spec fn all_ones(n: nat) -> nat {
    (crate::util::pow2(n) - 1) as nat
}

/// The value with the low `n` bits set.
fn low_mask(n: usize) -> (r: u128)
    requires
        n <= 128,
    ensures
        r == all_ones(n as nat),
{
    let mut m: u128 = 0;
    let mut i: usize = 0;
    proof {
        assert(crate::util::pow2(0) == 1);
    }
    while i < n
        invariant
            i <= n <= 128,
            m == all_ones(i as nat),
        decreases n - i,
    {
        proof {
            crate::util::lemma_pow2_monotone((i + 1) as nat, 128);
            crate::util::lemma_pow2_pos(i as nat);
            lemma_pow2_128();
            assert(crate::util::pow2((i + 1) as nat) == 2 * crate::util::pow2(i as nat));
        }
        m = m * 2 + 1;
        i += 1;
    }
    m
}

proof fn lemma_pow2_128()
    ensures
        crate::util::pow2(128) == u128::MAX + 1,
{
    crate::util::lemma_pow2_64_value();
    crate::util::lemma_pow2_add(64, 64);
}

/// Number of set bits among the low `k` bits of `x`.
pub open spec fn popcount(x: nat, k: nat) -> nat
    decreases k,
{
    if k == 0 {
        0
    } else {
        popcount(x, (k - 1) as nat) + (if (x / crate::util::pow2((k - 1) as nat)) % 2 == 1 {
            1nat
        } else {
            0nat
        })
    }
}

proof fn lemma_popcount_step(x: nat, i: nat)
    ensures
        popcount(x, i + 1) == popcount(x, i) + (if (x / crate::util::pow2(i)) % 2 == 1 {
            1nat
        } else {
            0nat
        }),
{
}

/// The one-bit value of a boolean.
fn from_bool(x: bool) -> (r: Bits<1>)
    ensures
        r.0 == (if x {
            1u128
        } else {
            0u128
        }),
{
    if x {
        Bits(1)
    } else {
        Bits(0)
    }
}

fn signed<const N: usize>(x: i128) -> (r: SignedBits<N>)
    ensures
        r.0 == x,
{
    SignedBits(x)
}

fn bits<const N: usize>(x: u128) -> (r: Bits<N>)
    ensures
        r.0 == x,
{
    Bits(x)
}

fn bitify_signed<const N: usize>(x: i128) -> (r: SignedBits<N>)
    ensures
        r.0 == x,
{
    SignedBits(x)
}

fn bitify_unsigned<const N: usize>(x: u128) -> (r: Bits<N>)
    ensures
        r.0 == x,
{
    Bits(x)
}

fn bitify_i32_to_i128(x: i32) -> (r: i128)
    ensures
        r == x,
{
    x as i128
}

fn bitify_i32_to_u128(x: i32) -> (r: u128)
    ensures
        r == x as u128,
{
    x as u128
}

fn bitify_bool(x: bool) -> (r: Bits<1>)
    ensures
        r.0 == (if x {
            1u128
        } else {
            0u128
        }),
{
    from_bool(x)
}

/// `a` when the condition bit is set, otherwise `b`.
fn select<T>(cond: Bits<1>, a: T, b: T) -> (r: T)
    ensures
        r == (if cond.0 != 0 {
            a
        } else {
            b
        }),
{
    if cond.0 != 0 {
        a
    } else {
        b
    }
}

} // verus!
