use vstd::prelude::*;

use crate::types::kind::{clone_kind, kv_bits, kv_is_signed, Kind, KindView};
use crate::error::RHDLError;
use crate::util::{lemma_pow2_63_value, lemma_pow2_64_value, lemma_pow2_monotone, pow2};

verus! {

/// A string of bits, least significant bit first, tagged with its signedness.
#[derive(Debug)]
pub enum BitString {
    Signed(Vec<bool>),
    Unsigned(Vec<bool>),
}

/// Model of a [`BitString`].
pub struct BitStringView {
    pub signed: bool,
    pub bits: Seq<bool>,
}

impl View for BitString {
    type V = BitStringView;

    open spec fn view(&self) -> BitStringView {
        match self {
            BitString::Signed(b) => BitStringView { signed: true, bits: b@ },
            BitString::Unsigned(b) => BitStringView { signed: false, bits: b@ },
        }
    }
}

/// A value together with its kind.
#[derive(Debug)]
pub struct TypedBits {
    pub bits: Vec<bool>,
    pub kind: Kind,
}

/// Bits of the natural number `value`, truncated to `len` bits (least significant first).
pub open spec fn bits_of_nat(value: nat, len: nat) -> Seq<bool> {
    Seq::new(len, |i: int| (value / pow2(i as nat)) % 2 == 1)
}

/// Extends (with the sign bit when `signed`, otherwise with zeros) or truncates
/// `bits` to exactly `len` bits.
pub open spec fn resize_bits(bits: Seq<bool>, signed: bool, len: nat) -> Seq<bool> {
    if len <= bits.len() {
        bits.take(len as int)
    } else {
        let fill = signed && bits.len() > 0 && bits.last();
        bits + Seq::new((len - bits.len()) as nat, |i: int| fill)
    }
}

/// Copies a bit vector.
pub fn copy_bits(b: &Vec<bool>) -> (r: Vec<bool>)
    ensures
        r@ == b@,
{
    let mut out: Vec<bool> = Vec::new();
    let mut i: usize = 0;
    while i < b.len()
        invariant
            i <= b.len(),
            out@ == b@.take(i as int),
        decreases b.len() - i,
    {
        out.push(b[i]);
        i += 1;
        proof {
            assert(out@ =~= b@.take(i as int));
        }
    }
    proof {
        assert(b@.take(b.len() as int) =~= b@);
    }
    out
}

/// Resizes a bit vector, extending with the sign bit if `signed`.
pub fn resize_vec(bits: &Vec<bool>, signed: bool, len: usize) -> (r: Vec<bool>)
    ensures
        r@ == resize_bits(bits@, signed, len as nat),
{
    let mut out: Vec<bool> = Vec::new();
    let fill = signed && bits.len() > 0 && bits[bits.len() - 1];
    let mut i: usize = 0;
    while i < len
        invariant
            i <= len,
            fill == (signed && bits@.len() > 0 && bits@.last()),
            out@.len() == i,
            forall|j: int|
                0 <= j < i ==> #[trigger] out@[j] == (if j < bits@.len() {
                    bits@[j]
                } else {
                    fill
                }),
        decreases len - i,
    {
        if i < bits.len() {
            out.push(bits[i]);
        } else {
            out.push(fill);
        }
        i += 1;
    }
    proof {
        assert(out@ =~= resize_bits(bits@, signed, len as nat));
    }
    out
}

/// The low `len` bits of a 128-bit `value`.
pub fn bits_from_u128(value: u128, len: usize) -> (r: Vec<bool>)
    ensures
        r@ == bits_of_nat(value as nat, len as nat),
{
    let mut out: Vec<bool> = Vec::new();
    let mut v: u128 = value;
    let mut i: usize = 0;
    proof {
        assert(pow2(0) == 1);
        assert(value as nat / 1 == value as nat);
    }
    while i < len
        invariant
            i <= len,
            v == value as nat / pow2(i as nat),
            out@.len() == i,
            forall|j: int|
                0 <= j < i ==> #[trigger] out@[j] == ((value as nat / pow2(j as nat)) % 2 == 1),
        decreases len - i,
    {
        out.push(v % 2 == 1);
        proof {
            crate::util::lemma_pow2_pos(i as nat);
            vstd::arithmetic::div_mod::lemma_div_denominator(value as int, pow2(i as nat) as int, 2);
            assert(pow2((i + 1) as nat) == pow2(i as nat) * 2) by {
                assert(pow2((i + 1) as nat) == 2 * pow2(i as nat));
            }
        }
        v = v / 2;
        i += 1;
    }
    proof {
        assert(out@ =~= bits_of_nat(value as nat, len as nat));
    }
    out
}

/// The low `len` bits of `value`.
pub fn bits_from_usize(value: usize, len: usize) -> (r: Vec<bool>)
    ensures
        r@ == bits_of_nat(value as nat, len as nat),
{
    let mut out: Vec<bool> = Vec::new();
    let mut v: usize = value;
    let mut i: usize = 0;
    proof {
        assert(pow2(0) == 1);
        assert(value as nat / 1 == value as nat);
    }
    while i < len
        invariant
            i <= len,
            v == value as nat / pow2(i as nat),
            out@.len() == i,
            forall|j: int|
                0 <= j < i ==> #[trigger] out@[j] == ((value as nat / pow2(j as nat)) % 2 == 1),
        decreases len - i,
    {
        out.push(v % 2 == 1);
        proof {
            crate::util::lemma_pow2_pos(i as nat);
            vstd::arithmetic::div_mod::lemma_div_denominator(value as int, pow2(i as nat) as int, 2);
            assert(pow2((i + 1) as nat) == pow2(i as nat) * 2) by {
                assert(pow2((i + 1) as nat) == 2 * pow2(i as nat));
            }
        }
        v = v / 2;
        i += 1;
    }
    proof {
        assert(out@ =~= bits_of_nat(value as nat, len as nat));
    }
    out
}

impl BitString {
    /// The bits of this string.
    pub fn bits(&self) -> (r: &Vec<bool>)
        ensures
            r@ == self@.bits,
    {
        match self {
            BitString::Signed(b) => b,
            BitString::Unsigned(b) => b,
        }
    }

    pub fn is_signed(&self) -> (r: bool)
        ensures
            r == self@.signed,
    {
        matches!(self, BitString::Signed(_))
    }

    /// Number of bits.
    pub fn len(&self) -> (r: usize)
        ensures
            r == self@.bits.len(),
    {
        self.bits().len()
    }

    /// A fresh copy.
    pub fn copy(&self) -> (r: BitString)
        ensures
            r@ == self@,
    {
        match self {
            BitString::Signed(b) => BitString::Signed(copy_bits(b)),
            BitString::Unsigned(b) => BitString::Unsigned(copy_bits(b)),
        }
    }

    /// Builds a string of the given signedness.
    pub fn from_bits(signed: bool, bits: Vec<bool>) -> (r: BitString)
        ensures
            r@ == (BitStringView { signed, bits: bits@ }),
    {
        if signed {
            BitString::Signed(bits)
        } else {
            BitString::Unsigned(bits)
        }
    }

    /// `len` zero bits (unsigned).
    pub fn zeros(len: usize) -> (r: BitString)
        ensures
            r@.signed == false,
            r@.bits == Seq::new(len as nat, |i: int| false),
    {
        let mut out: Vec<bool> = Vec::new();
        let mut i: usize = 0;
        while i < len
            invariant
                i <= len,
                out@ == Seq::new(i as nat, |j: int| false),
            decreases len - i,
        {
            out.push(false);
            i += 1;
            proof {
                assert(out@ =~= Seq::new(i as nat, |j: int| false));
            }
        }
        BitString::Unsigned(out)
    }

    /// Changes the width, keeping the signedness (sign-extending signed strings).
    pub fn resize(&self, len: usize) -> (r: BitString)
        ensures
            r@ == (BitStringView {
                signed: self@.signed,
                bits: resize_bits(self@.bits, self@.signed, len as nat),
            }),
    {
        BitString::from_bits(self.is_signed(), resize_vec(self.bits(), self.is_signed(), len))
    }

    /// Reinterprets as a signed string of width `len`.
    pub fn signed_cast(&self, len: usize) -> (r: BitString)
        ensures
            r@ == (BitStringView {
                signed: true,
                bits: resize_bits(self@.bits, self@.signed, len as nat),
            }),
    {
        BitString::Signed(resize_vec(self.bits(), self.is_signed(), len))
    }

    /// Reinterprets as an unsigned string of width `len`.
    pub fn unsigned_cast(&self, len: usize) -> (r: BitString)
        ensures
            r@ == (BitStringView {
                signed: false,
                bits: resize_bits(self@.bits, self@.signed, len as nat),
            }),
    {
        BitString::Unsigned(resize_vec(self.bits(), self.is_signed(), len))
    }

    /// Number of set bits.
    pub fn num_ones(&self) -> (r: usize)
        ensures
            r == count_ones(self@.bits),
    {
        let b = self.bits();
        let mut n: usize = 0;
        let mut i: usize = 0;
        while i < b.len()
            invariant
                i <= b.len(),
                n == count_ones(b@.take(i as int)),
                n <= i,
            decreases b.len() - i,
        {
            proof {
                lemma_count_ones_push(b@.take(i as int), b@[i as int]);
                assert(b@.take(i as int).push(b@[i as int]) =~= b@.take(i + 1));
            }
            if b[i] {
                n += 1;
            }
            i += 1;
        }
        proof {
            assert(b@.take(b.len() as int) =~= b@);
        }
        n
    }

    /// The value as a 64-bit integer; fails for strings wider than 64 bits.
    pub fn as_i64(&self) -> (r: Result<i64, RHDLError>)
        ensures
            r is Ok <==> self@.bits.len() <= 64,
            r matches Ok(v) ==> v == i64_value(self@),
            r matches Err(e) ==> e is IntegerOutOfRange,
    {
        if self.len() > 64 {
            return Err(RHDLError::IntegerOutOfRange);
        }
        let e = resize_vec(self.bits(), self.is_signed(), 64);
        let ghost es = e@;
        let mut acc: u128 = 0;
        let mut p: u128 = 1;
        let mut i: usize = 0;
        proof {
            lemma_pow2_64_value();
        }
        while i < 64
            invariant
                i <= 64,
                e@ == es,
                es.len() == 64,
                p == pow2(i as nat),
                acc == bits_value(es.take(i as int)),
                acc < pow2(i as nat),
                pow2(64) == 0x1_0000_0000_0000_0000,
            decreases 64 - i,
        {
            proof {
                assert(es.take(i + 1).drop_last() =~= es.take(i as int));
                assert(pow2((i + 1) as nat) == 2 * pow2(i as nat));
                lemma_pow2_monotone((i + 1) as nat, 64);
            }
            if e[i] {
                acc = acc + p;
            }
            p = p * 2;
            i += 1;
        }
        proof {
            assert(es.take(64) =~= es);
        }
        if e[63] {
            proof {
                lemma_bits_value_bound(es.take(63));
                assert(es.take(64).drop_last() =~= es.take(63));
                lemma_pow2_63_value();
            }
            let low = (acc - 0x8000_0000_0000_0000u128) as i64;
            Ok(low + i64::MIN)
        } else {
            proof {
                lemma_bits_value_bound(es.take(63));
                assert(es.take(64).drop_last() =~= es.take(63));
                lemma_pow2_63_value();
            }
            Ok(acc as i64)
        }
    }

    /// Number of clear bits below the lowest set bit (the length if none is set).
    pub fn trailing_zeros(&self) -> (r: usize)
        ensures
            r <= self@.bits.len(),
            forall|j: int| 0 <= j < r ==> !self@.bits[j],
            r < self@.bits.len() ==> self@.bits[r as int],
            r == trailing_zeros_of(self@.bits),
    {
        let b = self.bits();
        let mut i: usize = 0;
        while i < b.len() && !b[i]
            invariant
                i <= b.len(),
                forall|j: int| 0 <= j < i ==> !b@[j],
            decreases b.len() - i,
        {
            i += 1;
        }
        proof {
            lemma_trailing_zeros_of(b@, i as nat);
        }
        i
    }
}

/// Unsigned value of a bit sequence, least significant bit first.
pub open spec fn bits_value(s: Seq<bool>) -> nat
    decreases s.len(),
{
    if s.len() == 0 {
        0
    } else {
        bits_value(s.drop_last()) + if s.last() {
            pow2((s.len() - 1) as nat)
        } else {
            0nat
        }
    }
}

/// The value of a bit string read as a 64-bit two's complement integer: the
/// bits are first extended to 64 by the string's signedness.
pub open spec fn i64_value(b: BitStringView) -> int {
    let e = resize_bits(b.bits, b.signed, 64);
    bits_value(e) - if e[63] {
        pow2(64) as int
    } else {
        0int
    }
}

pub proof fn lemma_bits_value_bound(s: Seq<bool>)
    ensures
        bits_value(s) < pow2(s.len()),
    decreases s.len(),
{
    if s.len() > 0 {
        lemma_bits_value_bound(s.drop_last());
        assert(pow2(s.len()) == 2 * pow2((s.len() - 1) as nat));
    }
}

/// Number of clear bits below the lowest set bit (the length if none is set).
pub open spec fn trailing_zeros_of(s: Seq<bool>) -> nat
    decreases s.len(),
{
    if s.len() == 0 || s[0] {
        0
    } else {
        1 + trailing_zeros_of(s.drop_first())
    }
}

pub proof fn lemma_trailing_zeros_of(s: Seq<bool>, r: nat)
    requires
        r <= s.len(),
        forall|j: int| 0 <= j < r ==> !s[j],
        r < s.len() ==> s[r as int],
    ensures
        r == trailing_zeros_of(s),
    decreases s.len(),
{
    if s.len() > 0 && r > 0 {
        assert forall|j: int| 0 <= j < r - 1 implies !s.drop_first()[j] by {
            assert(s.drop_first()[j] == s[j + 1]);
        }
        lemma_trailing_zeros_of(s.drop_first(), (r - 1) as nat);
    }
}

/// Number of `true` entries.
pub open spec fn count_ones(s: Seq<bool>) -> nat
    decreases s.len(),
{
    if s.len() == 0 {
        0
    } else {
        count_ones(s.drop_last()) + if s.last() {
            1nat
        } else {
            0nat
        }
    }
}

pub proof fn lemma_count_ones_push(s: Seq<bool>, b: bool)
    ensures
        count_ones(s.push(b)) == count_ones(s) + if b {
            1nat
        } else {
            0nat
        },
{
    assert(s.push(b).drop_last() =~= s);
}

/// Model of a [`TypedBits`] value.
pub struct TypedBitsView {
    pub bits: Seq<bool>,
    pub kind: KindView,
}

impl View for TypedBits {
    type V = TypedBitsView;

    open spec fn view(&self) -> TypedBitsView {
        TypedBitsView { bits: self.bits@, kind: self.kind@ }
    }
}

/// The bit string that carries a typed value: signed exactly when the kind is.
pub open spec fn typed_to_bit_string(t: TypedBitsView) -> BitStringView {
    BitStringView { signed: kv_is_signed(t.kind), bits: t.bits }
}

impl TypedBits {
    /// A fresh copy.
    pub fn copy(&self) -> (r: TypedBits)
        ensures
            r@ == self@,
    {
        TypedBits { bits: copy_bits(&self.bits), kind: clone_kind(&self.kind) }
    }

    /// The low `len` bits of `value`, as an unsigned value of width `len`.
    pub fn from_usize(value: usize, len: usize) -> (r: TypedBits)
        ensures
            r@.bits == bits_of_nat(value as nat, len as nat),
            r@.kind == KindView::Bits(len as nat),
    {
        TypedBits { bits: bits_from_usize(value, len), kind: Kind::Bits(len) }
    }

    /// A single bit holding `b`.
    pub fn from_bool(b: bool) -> (r: TypedBits)
        ensures
            r@.bits == seq![b],
            r@.kind == KindView::Bits(1),
    {
        let mut v: Vec<bool> = Vec::new();
        v.push(b);
        proof {
            assert(v@ =~= seq![b]);
        }
        TypedBits { bits: v, kind: Kind::Bits(1) }
    }

    /// The value of a one-bit value.
    pub fn as_bool(&self) -> (r: Result<bool, crate::error::RHDLError>)
        ensures
            match r {
                Ok(b) => self@.bits.len() == 1 && b == self@.bits[0],
                Err(_) => self@.bits.len() != 1,
            },
    {
        if self.bits.len() == 1 {
            Ok(self.bits[0])
        } else {
            Err(crate::error::RHDLError::NotABoolean)
        }
    }

    /// This value as a signed value of width `len` (sign-extended when the
    /// value is signed, zero-extended otherwise, or truncated).
    pub fn signed_cast(&self, len: usize) -> (r: TypedBits)
        ensures
            r@.bits == resize_bits(self@.bits, kv_is_signed(self@.kind), len as nat),
            r@.kind == KindView::Signed(len as nat),
    {
        TypedBits { bits: resize_vec(&self.bits, self.kind.is_signed(), len), kind: Kind::Signed(len) }
    }

    /// This value as an unsigned value of width `len` (sign-extended when the
    /// value is signed, zero-extended otherwise, or truncated).
    pub fn unsigned_cast(&self, len: usize) -> (r: TypedBits)
        ensures
            r@.bits == resize_bits(self@.bits, kv_is_signed(self@.kind), len as nat),
            r@.kind == KindView::Bits(len as nat),
    {
        TypedBits { bits: resize_vec(&self.bits, self.kind.is_signed(), len), kind: Kind::Bits(len) }
    }

    /// The bit string carrying this value.
    pub fn to_bit_string(&self) -> (r: BitString)
        ensures
            r@ == typed_to_bit_string(self@),
    {
        BitString::from_bits(self.kind.is_signed(), copy_bits(&self.bits))
    }
}

} // verus!
