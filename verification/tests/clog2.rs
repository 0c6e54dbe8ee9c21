use lib::util::clog2;

#[test]
fn test_clog2() {
    assert_eq!(clog2(0), 0);
    assert_eq!(clog2(1), 0);
    assert_eq!(clog2(2), 1);
    assert_eq!(clog2(3), 2);
    assert_eq!(clog2(255), 8);
}

#[test]
fn clog2_of_powers_of_two_and_neighbours() {
    assert_eq!(clog2(4), 2);
    assert_eq!(clog2(5), 3);
    assert_eq!(clog2(256), 8);
    assert_eq!(clog2(257), 9);
    assert_eq!(clog2(1 << 20), 20);
    assert_eq!(clog2(usize::MAX), 64);
}
