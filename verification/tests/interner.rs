use lib::compiler::mir::interner::Intern;

type StringInterner = Intern<Box<str>>;

#[test]
fn string_interner() {
    let mut interner = StringInterner::default();
    let p = "hello";
    let _q = p.to_owned();
    let _key1 = interner.intern(&"hello".into());
}

#[test]
fn interning_twice_gives_the_same_key() {
    let mut interner = StringInterner::default();
    let a = interner.intern(&"hello".into());
    let b = interner.intern(&"world".into());
    let c = interner.intern(&"hello".into());
    assert_eq!(a, c);
    assert_ne!(a, b);
    assert_eq!(interner.count(), 2);
    assert_eq!(&**interner.get(a), "hello");
    assert_eq!(&**interner.get(b), "world");
}

#[test]
fn a_new_interner_is_empty() {
    let interner = StringInterner::default();
    assert_eq!(interner.count(), 0);
}
