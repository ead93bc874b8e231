use testless::calc::{add, fmt, Calc};

#[test]
fn add_works() {
    assert_eq!(add(2, 2), 4);
}

#[test]
fn calc_push() {
    let mut c = Calc { total: 0 };
    c.push(5);
    assert_eq!(c.total, 5);
}

#[test]
fn sums_print_with_their_sign() {
    assert_eq!(fmt(1, 2), "3");
    assert_eq!(fmt(0, 0), "0");
    assert_eq!(fmt(2, -30), "-28");
    assert_eq!(fmt(i64::MIN, 0), "-9223372036854775808");
    assert_eq!(fmt(i64::MAX, 0), "9223372036854775807");
}
