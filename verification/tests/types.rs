use lib::rhif::spec::{LiteralId, RegisterId, Slot};
use lib::types::bit_string::{BitString, TypedBits};
use lib::types::kind::{kind_eq, Color, Field, Kind};
use lib::types::path::{bit_range, sub_kind, Path, PathElement};
use lib::util::reversed;

fn unsigned(n: usize, value: u64) -> BitString {
    BitString::Unsigned((0..n).map(|i| (value >> i) & 1 == 1).collect())
}

fn signed(n: usize, value: i64) -> BitString {
    BitString::Signed((0..n).map(|i| (value >> i) & 1 == 1).collect())
}

#[test]
fn as_i64_reads_unsigned_and_signed_strings() {
    assert_eq!(unsigned(8, 200).as_i64().unwrap(), 200);
    assert_eq!(signed(8, -56).as_i64().unwrap(), -56);
    assert_eq!(signed(4, 7).as_i64().unwrap(), 7);
    assert_eq!(unsigned(0, 0).as_i64().unwrap(), 0);
    assert_eq!(unsigned(64, u64::MAX).as_i64().unwrap(), -1);
    assert!(unsigned(65, 0).as_i64().is_err());
}

#[test]
fn resizing_extends_by_sign() {
    let s = signed(4, -2).resize(8);
    assert!(s.is_signed());
    assert_eq!(s.as_i64().unwrap(), -2);
    let u = unsigned(4, 14).resize(8);
    assert_eq!(u.as_i64().unwrap(), 14);
    let t = unsigned(8, 0x1f).resize(4);
    assert_eq!(t.as_i64().unwrap(), 0xf);
}

#[test]
fn casts_change_the_signedness() {
    let s = unsigned(4, 15).signed_cast(4);
    assert!(s.is_signed());
    assert_eq!(s.as_i64().unwrap(), -1);
    let u = signed(4, -1).unsigned_cast(6);
    assert!(!u.is_signed());
    assert_eq!(u.as_i64().unwrap(), 63);
}

#[test]
fn counting_bits() {
    assert_eq!(unsigned(8, 0b1010_0000).num_ones(), 2);
    assert_eq!(unsigned(8, 0b1010_0000).trailing_zeros(), 5);
    assert_eq!(unsigned(8, 0).trailing_zeros(), 8);
    assert_eq!(BitString::zeros(5).len(), 5);
    assert_eq!(BitString::zeros(5).num_ones(), 0);
}

#[test]
fn typed_bits_from_values() {
    let t = TypedBits::from_usize(5, 4);
    assert_eq!(t.bits, vec![true, false, true, false]);
    assert!(matches!(t.kind, Kind::Bits(4)));
    assert!(TypedBits::from_bool(true).as_bool().unwrap());
    assert!(!TypedBits::from_bool(false).as_bool().unwrap());
    assert!(TypedBits::from_usize(1, 2).as_bool().is_err());
}

#[test]
fn kinds_compare_by_structure() {
    let a = Kind::Tuple(vec![Kind::Bits(3), Kind::Signed(2)]);
    let b = Kind::Tuple(vec![Kind::Bits(3), Kind::Signed(2)]);
    let c = Kind::Tuple(vec![Kind::Bits(3), Kind::Bits(2)]);
    assert!(kind_eq(&a, &b));
    assert!(!kind_eq(&a, &c));
    assert_eq!(a.bits(), 5);
    let s = Kind::Signal(Box::new(Kind::Bits(4)), Color::Green);
    assert!(s.is_signal());
    assert!(matches!(s.signal_clock(), Some(Color::Green)));
    assert_eq!(Kind::Array(Box::new(Kind::Bits(3)), 4).bits(), 12);
}

#[test]
fn bit_ranges_of_paths() {
    let k = Kind::Struct("Rec".to_string(), vec![
        Field { name: "a".to_string(), kind: Kind::Bits(3) },
        Field { name: "b".to_string(), kind: Kind::Array(Box::new(Kind::Signed(4)), 3) },
    ]);
    let (r, sk) = bit_range(&k, &Path::new().field(&"b".to_string()).index(2)).unwrap();
    assert_eq!(r, 11..15);
    assert!(matches!(sk, Kind::Signed(4)));
    let (r, _) = bit_range(&k, &Path::new()).unwrap();
    assert_eq!(r, 0..15);
    assert!(bit_range(&k, &Path::new().field(&"c".to_string())).is_err());
    assert!(bit_range(&k, &Path::new().field(&"b".to_string()).index(3)).is_err());
    assert!(matches!(sub_kind(&k, &Path::new().tuple_index(0)).unwrap(), Kind::Bits(3)));
}

#[test]
fn dynamic_slots_of_a_path() {
    let mut p = Path::new().index(1);
    p.push(PathElement::DynamicIndex(Slot::Register(RegisterId(4))));
    p.push(PathElement::DynamicIndex(Slot::Literal(LiteralId(2))));
    assert!(p.any_dynamic());
    assert_eq!(p.dynamic_slots(), vec![Slot::Register(RegisterId(4)), Slot::Literal(LiteralId(2))]);
    let z = p.zero_out_dynamic_indices();
    assert!(!z.any_dynamic());
    assert_eq!(z.len(), 3);
}

#[test]
fn reversing_a_vector() {
    assert_eq!(reversed(vec![1, 2, 3]), vec![3, 2, 1]);
    assert_eq!(reversed(Vec::<u8>::new()), Vec::<u8>::new());
}
