use vstd::prelude::*;

verus! {

/// `2` raised to the power `k`.
pub open spec fn pow2(k: nat) -> nat
    decreases k,
{
    if k == 0 {
        1
    } else {
        2 * pow2((k - 1) as nat)
    }
}

/// The ceiling of the base-2 logarithm of `x`: the least `k` with `2^k >= x`
/// (and `0` for `x == 0`).
pub open spec fn is_clog2(x: nat, k: nat) -> bool {
    &&& x <= pow2(k)
    &&& (k > 0 ==> pow2((k - 1) as nat) < x)
}

/// Number of bits needed to index `x` distinct positions: the least `k`
/// with `x <= 2^k`.
pub fn clog2(x: usize) -> (k: usize)
    ensures
        is_clog2(x as nat, k as nat),
        k <= 64,
{
    let mut k: usize = 0;
    let mut p: u128 = 1;
    while (p as u128) < (x as u128)
        invariant
            p == pow2(k as nat),
            k <= 64,
            k > 0 ==> pow2((k - 1) as nat) < x,
            x <= usize::MAX,
        decreases 64 - k,
    {
        assert(k < 64) by {
            if k >= 64 {
                lemma_pow2_64_ge(k as nat);
            }
        }
        k = k + 1;
        p = p * 2;
    }
    k
}

/// `2^k` is positive.
pub proof fn lemma_pow2_pos(k: nat)
    ensures
        pow2(k) > 0,
    decreases k,
{
    if k > 0 {
        lemma_pow2_pos((k - 1) as nat);
    }
}

/// `2^(a + b) == 2^a * 2^b`.
pub proof fn lemma_pow2_add(a: nat, b: nat)
    ensures
        pow2(a + b) == pow2(a) * pow2(b),
    decreases a,
{
    if a > 0 {
        lemma_pow2_add((a - 1) as nat, b);
        assert(pow2(a + b) == 2 * pow2((a - 1 + b) as nat));
        assert(2 * (pow2((a - 1) as nat) * pow2(b)) == (2 * pow2((a - 1) as nat)) * pow2(b))
            by (nonlinear_arith);
    } else {
        assert(pow2(0) == 1);
        assert(a + b == b);
    }
}

/// `2^k` grows with `k`.
pub proof fn lemma_pow2_monotone(a: nat, b: nat)
    requires
        a <= b,
    ensures
        pow2(a) <= pow2(b),
    decreases b,
{
    if a < b {
        lemma_pow2_monotone(a, (b - 1) as nat);
    }
}

pub proof fn lemma_pow2_64_value()
    ensures
        pow2(64) == 0x1_0000_0000_0000_0000,
{
    reveal_with_fuel(pow2, 9);
    assert(pow2(8) == 256);
    lemma_pow2_add(8, 8);
    assert(pow2(16) == 0x1_0000);
    lemma_pow2_add(16, 16);
    assert(pow2(32) == 0x1_0000_0000);
    lemma_pow2_add(32, 32);
}

pub proof fn lemma_pow2_63_value()
    ensures
        pow2(63) == 0x8000_0000_0000_0000,
{
    lemma_pow2_64_value();
    assert(pow2(64) == 2 * pow2(63));
}

proof fn lemma_pow2_64_ge(k: nat)
    requires
        k >= 64,
    ensures
        pow2(k) > usize::MAX,
{
    lemma_pow2_64_value();
    lemma_pow2_monotone(64, k);
}

/// The elements of `v` in reverse order.
pub fn reversed<T>(v: Vec<T>) -> (r: Vec<T>)
    ensures
        r@ == v@.reverse(),
{
    let ghost orig = v@;
    let mut v = v;
    let mut out: Vec<T> = Vec::new();
    while v.len() > 0
        invariant
            v@ == orig.take(v@.len() as int),
            v@.len() <= orig.len(),
            out@.len() + v@.len() == orig.len(),
            forall|j: int| 0 <= j < out@.len() ==> #[trigger] out@[j] == orig[orig.len() - 1 - j],
        decreases v@.len(),
    {
        let x = v.pop().unwrap();
        out.push(x);
        proof {
            assert(v@ =~= orig.take(v@.len() as int));
        }
    }
    proof {
        assert(out@ =~= orig.reverse());
    }
    out
}

} // verus!
