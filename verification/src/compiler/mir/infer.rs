use vstd::prelude::*;

use crate::ast::ExprLit;
use crate::compiler::mir::ty::{term_kind, TypeId, UnifyContext};
use crate::error::{RHDLError, TypeCheck};
use crate::types::bit_string::{bits_from_u128, bits_of_nat, resize_bits, TypedBits, TypedBitsView};
use crate::types::kind::{kind_eq, kv_bits, kv_bounded, kv_is_unsigned, Kind, KindView};
use crate::util::{lemma_pow2_64_value, pow2};

verus! {

/// The value of an ASCII digit in the given radix (`0-9`, then `a-z` or
/// `A-Z` from ten), if it is a digit of that radix.
pub open spec fn digit_of(c: u8, radix: nat) -> Option<nat> {
    let d: int = if 48 <= c <= 57 {
        c - 48
    } else if 97 <= c <= 122 {
        c - 97 + 10
    } else if 65 <= c <= 90 {
        c - 65 + 10
    } else {
        36
    };
    if d < radix {
        Some(d as nat)
    } else {
        None
    }
}

/// The number written by the digits, most significant first, if they are all
/// digits of the radix.
pub open spec fn digits_value(ds: Seq<u8>, radix: nat) -> Option<nat>
    decreases ds.len(),
{
    if ds.len() == 0 {
        Some(0)
    } else {
        match digits_value(ds.drop_last(), radix) {
            Some(v) => match digit_of(ds.last(), radix) {
                Some(d) => Some(v * radix + d),
                None => None,
            },
            None => None,
        }
    }
}

/// The radix an integer literal announces: `0b`, `0o` or `0x`, else ten.
pub open spec fn radix_of(b: Seq<u8>) -> nat {
    if b.len() >= 2 && b[0] == 48 && b[1] == 98 {
        2
    } else if b.len() >= 2 && b[0] == 48 && b[1] == 111 {
        8
    } else if b.len() >= 2 && b[0] == 48 && b[1] == 120 {
        16
    } else {
        10
    }
}

/// The literal without its radix prefix.
pub open spec fn body_of(b: Seq<u8>) -> Seq<u8> {
    if radix_of(b) == 10 {
        b
    } else {
        b.skip(2)
    }
}

/// The magnitude written after an optional sign (`+`, or `-` when allowed),
/// if it is a non-empty run of digits of the radix.
pub open spec fn magnitude(s: Seq<u8>, radix: nat, minus_allowed: bool) -> Option<nat> {
    if s.len() == 0 || (s.len() == 1 && (s[0] == 43 || s[0] == 45)) {
        None
    } else if s[0] == 43 || (minus_allowed && s[0] == 45) {
        digits_value(s.skip(1), radix)
    } else {
        digits_value(s, radix)
    }
}

/// The value of an unsigned 128-bit literal, if it parses and fits.
pub open spec fn unsigned_literal(b: Seq<u8>) -> Option<nat> {
    match magnitude(body_of(b), radix_of(b), false) {
        Some(v) => if v <= u128::MAX {
            Some(v)
        } else {
            None
        },
        None => None,
    }
}

/// The value of a signed 128-bit literal, if it parses and fits.
pub open spec fn signed_literal(b: Seq<u8>) -> Option<int> {
    let s = body_of(b);
    match magnitude(s, radix_of(b), true) {
        Some(v) => if s[0] == 45 {
            if v <= pow2(127) {
                Some(-v)
            } else {
                None
            }
        } else if v < pow2(127) {
            Some(v as int)
        } else {
            None
        },
        None => None,
    }
}

/// Two's complement of a 128-bit signed value.
pub open spec fn twos128(x: int) -> nat {
    if x >= 0 {
        x as nat
    } else {
        (x + pow2(128)) as nat
    }
}

/// The value an integer literal takes in the inferred kind: parsed as
/// unsigned and cut to width for an unsigned kind, otherwise parsed as
/// signed and sign-extended or cut to width.
pub open spec fn int_literal_bits(b: Seq<u8>, kind: KindView) -> Option<TypedBitsView> {
    if kv_is_unsigned(kind) {
        match unsigned_literal(b) {
            Some(v) => Some(
                TypedBitsView {
                    bits: resize_bits(bits_of_nat(v, 128), false, kv_bits(kind)),
                    kind: KindView::Bits(kv_bits(kind)),
                },
            ),
            None => None,
        }
    } else {
        match signed_literal(b) {
            Some(x) => Some(
                TypedBitsView {
                    bits: resize_bits(bits_of_nat(twos128(x), 128), true, kv_bits(kind)),
                    kind: KindView::Signed(kv_bits(kind)),
                },
            ),
            None => None,
        }
    }
}

proof fn lemma_digits_prefix_none(ds: Seq<u8>, radix: nat, j: int)
    requires
        0 <= j <= ds.len(),
        digits_value(ds.take(j), radix) is None,
    ensures
        digits_value(ds, radix) is None,
    decreases ds.len() - j,
{
    if j < ds.len() {
        assert(ds.take(j + 1).drop_last() =~= ds.take(j));
        lemma_digits_prefix_none(ds, radix, j + 1);
    } else {
        assert(ds.take(j) =~= ds);
    }
}

proof fn lemma_digits_prefix_big(ds: Seq<u8>, radix: nat, j: int, bound: nat)
    requires
        0 <= j <= ds.len(),
        radix >= 1,
        digits_value(ds.take(j), radix) matches Some(v) && v > bound,
    ensures
        digits_value(ds, radix) matches Some(w) ==> w > bound,
    decreases ds.len() - j,
{
    if j < ds.len() {
        assert(ds.take(j + 1).drop_last() =~= ds.take(j));
        if digits_value(ds.take(j + 1), radix) is Some {
            let v = digits_value(ds.take(j), radix)->Some_0;
            let d = digit_of(ds.take(j + 1).last(), radix)->Some_0;
            assert(v * radix + d >= v) by (nonlinear_arith)
                requires
                    radix >= 1,
            ;
            lemma_digits_prefix_big(ds, radix, j + 1, bound);
        } else {
            lemma_digits_prefix_none(ds, radix, j + 1);
        }
    } else {
        assert(ds.take(j) =~= ds);
    }
}

/// The value of digit `c` in the radix.
fn digit(c: u8, radix: u128) -> (r: Option<u128>)
    requires
        2 <= radix <= 36,
    ensures
        r matches Some(d) ==> digit_of(c, radix as nat) == Some(d as nat),
        r is None ==> digit_of(c, radix as nat) is None,
{
    let d: u128 = if 48 <= c && c <= 57 {
        (c - 48) as u128
    } else if 97 <= c && c <= 122 {
        (c - 97 + 10) as u128
    } else if 65 <= c && c <= 90 {
        (c - 65 + 10) as u128
    } else {
        36
    };
    if d < radix {
        Some(d)
    } else {
        None
    }
}

/// The number written by `b[start..]` in the radix, if every byte is a digit
/// and the number fits in 128 bits.
fn parse_digits(b: &[u8], start: usize, radix: u128) -> (r: Option<u128>)
    requires
        start <= b@.len(),
        2 <= radix <= 36,
    ensures
        r matches Some(v) ==> digits_value(b@.skip(start as int), radix as nat) == Some(v as nat),
        r is None ==> match digits_value(b@.skip(start as int), radix as nat) {
            Some(v) => v > u128::MAX,
            None => true,
        },
{
    let ghost ds = b@.skip(start as int);
    let mut acc: u128 = 0;
    let mut overflow = false;
    let mut i: usize = start;
    proof {
        assert(ds.take(0) =~= Seq::<u8>::empty());
    }
    while i < b.len()
        invariant
            start <= i <= b@.len(),
            ds == b@.skip(start as int),
            2 <= radix <= 36,
            overflow ==> (digits_value(ds.take(i - start), radix as nat) matches Some(v) && v > u128::MAX),
            !overflow ==> digits_value(ds.take(i - start), radix as nat) == Some(acc as nat),
        decreases b@.len() - i,
    {
        proof {
            assert(ds.take(i - start + 1).drop_last() =~= ds.take(i - start));
            assert(ds.take(i - start + 1).last() == b@[i as int]);
        }
        match digit(b[i], radix) {
            None => {
                proof {
                    lemma_digits_prefix_none(ds, radix as nat, i - start + 1);
                }
                return None;
            },
            Some(d) => {
                if !overflow {
                    match acc.checked_mul(radix) {
                        Some(m) => match m.checked_add(d) {
                            Some(s) => {
                                acc = s;
                            },
                            None => {
                                overflow = true;
                            },
                        },
                        None => {
                            proof {
                                assert(acc * radix + d >= acc * radix);
                            }
                            overflow = true;
                        },
                    }
                } else {
                    proof {
                        let v = digits_value(ds.take(i - start), radix as nat)->Some_0;
                        assert(v * radix + d >= v) by (nonlinear_arith)
                            requires
                                radix >= 1,
                        ;
                    }
                }
            },
        }
        i += 1;
    }
    proof {
        assert(ds.take(i - start) =~= ds);
    }
    if overflow {
        None
    } else {
        Some(acc)
    }
}

/// The radix announced by the literal and where its body starts.
fn radix_and_start(b: &[u8]) -> (r: (u128, usize))
    ensures
        r.0 == radix_of(b@),
        r.1 <= b@.len(),
        b@.skip(r.1 as int) == body_of(b@),
{
    if b.len() >= 2 && b[0] == 48 && b[1] == 98 {
        (2, 2)
    } else if b.len() >= 2 && b[0] == 48 && b[1] == 111 {
        (8, 2)
    } else if b.len() >= 2 && b[0] == 48 && b[1] == 120 {
        (16, 2)
    } else {
        proof {
            assert(b@.skip(0) =~= b@);
        }
        (10, 0)
    }
}

/// Parses an unsigned 128-bit literal, with an optional radix prefix and
/// an optional `+`.
pub fn parse_unsigned_literal(s: &str) -> (r: Option<u128>)
    ensures
        match unsigned_literal(vstd::utf8::encode_utf8(s@)) {
            Some(v) => r == Some(v as u128),
            None => r is None,
        },
{
    let b = s.as_bytes();
    let (radix, start) = radix_and_start(b);
    let ghost body = b@.skip(start as int);
    if start == b.len() || (b.len() - start == 1 && (b[start] == 43 || b[start] == 45)) {
        return None;
    }
    let ds_start = if b[start] == 43 {
        start + 1
    } else {
        start
    };
    proof {
        assert(b@.skip(ds_start as int) =~= if b@[start as int] == 43 {
            body.skip(1)
        } else {
            body
        });
    }
    parse_digits(b, ds_start, radix)
}

/// Parses a signed 128-bit literal, with an optional radix prefix and an
/// optional sign.
pub fn parse_signed_literal(s: &str) -> (r: Option<i128>)
    ensures
        match signed_literal(vstd::utf8::encode_utf8(s@)) {
            Some(v) => r == Some(v as i128),
            None => r is None,
        },
{
    let b = s.as_bytes();
    let (radix, start) = radix_and_start(b);
    let ghost body = b@.skip(start as int);
    if start == b.len() || (b.len() - start == 1 && (b[start] == 43 || b[start] == 45)) {
        return None;
    }
    let negative = b[start] == 45;
    let ds_start = if b[start] == 43 || negative {
        start + 1
    } else {
        start
    };
    proof {
        assert(b@.skip(ds_start as int) =~= if b@[start as int] == 43 || b@[start as int] == 45 {
            body.skip(1)
        } else {
            body
        });
        assert(body[0] == b@[start as int]);
        lemma_pow2_127();
    }
    match parse_digits(b, ds_start, radix) {
        None => None,
        Some(v) => {
            if negative {
                if v <= 0x8000_0000_0000_0000_0000_0000_0000_0000u128 {
                    if v == 0x8000_0000_0000_0000_0000_0000_0000_0000u128 {
                        Some(i128::MIN)
                    } else {
                        Some(-(v as i128))
                    }
                } else {
                    None
                }
            } else if v < 0x8000_0000_0000_0000_0000_0000_0000_0000u128 {
                Some(v as i128)
            } else {
                None
            }
        },
    }
}

proof fn lemma_pow2_127()
    ensures
        pow2(127) == 0x8000_0000_0000_0000_0000_0000_0000_0000,
        pow2(128) == 0x1_0000_0000_0000_0000_0000_0000_0000_0000,
{
    lemma_pow2_64_value();
    crate::util::lemma_pow2_add(64, 64);
    assert(pow2(128) == 2 * pow2(127));
}

/// The 128 bits of a signed value, in two's complement.
fn twos_complement(x: i128) -> (r: u128)
    ensures
        r == twos128(x as int),
{
    proof {
        lemma_pow2_127();
    }
    if x >= 0 {
        x as u128
    } else {
        ((x + i128::MAX + 1) as u128) + 0x8000_0000_0000_0000_0000_0000_0000_0000u128
    }
}

/// The value a literal takes in kind `k`, if it has one there.
pub open spec fn literal_value(t: ExprLit, k: KindView) -> Option<TypedBitsView> {
    match t {
        ExprLit::TypedBits(tb) => if tb.kind@ == k {
            Some(tb@)
        } else {
            None
        },
        ExprLit::Int(x) => int_literal_bits(vstd::utf8::encode_utf8(x@), k),
        ExprLit::Bool(b) => Some(TypedBitsView { bits: seq![b], kind: KindView::Bits(1) }),
    }
}

/// Gives a literal the value it takes in the type inferred for it: a typed
/// literal must already have that kind; an integer literal is parsed (by the
/// radix its prefix announces) and cut or extended to the kind's width,
/// unsigned for an unsigned kind and signed otherwise; a boolean is one bit.
pub fn cast_literal_to_inferred_type(ctx: &mut UnifyContext, t: ExprLit, ty: TypeId) -> (r: Result<TypedBits, RHDLError>)
    requires
        old(ctx).wf(),
        old(ctx).has(ty),
        t is Int ==> (term_kind(old(ctx).term(ty)) matches Ok(k) ==> kv_bounded(k)),
    ensures
        final(ctx).wf(),
        final(ctx).grows_from(*old(ctx)),
        final(ctx).subst() == old(ctx).subst(),
        final(ctx).vars() == old(ctx).vars(),
        match term_kind(old(ctx).term(ty)) {
            Err(e) => r == Err::<TypedBits, RHDLError>(RHDLError::TypeInference { cause: e }),
            Ok(k) => match t {
                ExprLit::TypedBits(tb) => if tb.kind@ == k {
                    r matches Ok(v) && v@ == tb@
                } else {
                    r matches Err(RHDLError::TypeCheck { cause: TypeCheck::InferredLiteralTypeMismatch { typ, kind }, id })
                        && typ@ == tb.kind@ && kind@ == k && id == ty.id
                },
                ExprLit::Int(x) => match int_literal_bits(vstd::utf8::encode_utf8(x@), k) {
                    Some(v) => r matches Ok(tb) && tb@ == v,
                    None => r matches Err(RHDLError::InvalidLiteral),
                },
                ExprLit::Bool(b) => r matches Ok(tb) && tb@ == (TypedBitsView { bits: seq![b], kind: KindView::Bits(1) }),
            },
        },
        term_kind(old(ctx).term(ty)) matches Ok(k) ==> match literal_value(t, k) {
            Some(v) => r matches Ok(x) && x@ == v,
            None => r is Err,
        },
{
    let kind = match ctx.into_kind(ty) {
        Ok(k) => k,
        Err(e) => {
            return Err(RHDLError::TypeInference { cause: e });
        },
    };
    match t {
        ExprLit::TypedBits(tb) => {
            if !kind_eq(&tb.kind, &kind) {
                return Err(
                    RHDLError::TypeCheck {
                        cause: TypeCheck::InferredLiteralTypeMismatch { typ: tb.kind, kind },
                        id: ty.id,
                    },
                );
            }
            Ok(tb)
        },
        ExprLit::Int(x) => {
            let width = kind.bits();
            if kind.is_unsigned() {
                match parse_unsigned_literal(x.as_str()) {
                    Some(v) => {
                        let wide = TypedBits { bits: bits_from_u128(v, 128), kind: Kind::Bits(128) };
                        Ok(wide.unsigned_cast(width))
                    },
                    None => Err(RHDLError::InvalidLiteral),
                }
            } else {
                proof {
                    lemma_pow2_127();
                }
                match parse_signed_literal(x.as_str()) {
                    Some(v) => {
                        let wide = TypedBits { bits: bits_from_u128(twos_complement(v), 128), kind: Kind::Signed(128) };
                        Ok(wide.signed_cast(width))
                    },
                    None => Err(RHDLError::InvalidLiteral),
                }
            }
        },
        ExprLit::Bool(b) => Ok(TypedBits::from_bool(b)),
    }
}

} // verus!
