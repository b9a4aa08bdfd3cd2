use hyeong::big_number::Num;
use hyeong::number::{NumOrder, Number};

#[test]
fn add_zero_returns_same_value() {
    let n = Num::new(-987654321);
    let z = Num::zero();
    let r = Num::add(&n, &z);
    assert!(r == n);
}

#[test]
fn sub_self_is_zero() {
    let n = Num::new(123456789987654321);
    let r = Num::sub(&n, &n);
    assert!(r.is_zero());
    assert!(r == Num::zero());
}

#[test]
fn mul_one_and_mul_zero() {
    let n = Num::new(-44444444444);
    let r1 = Num::mul(&n, &Num::one());
    assert!(r1 == n);
    let r0 = Num::mul(&n, &Num::zero());
    assert!(r0.is_zero());
}

#[test]
fn exact_division_inverts_multiplication() {
    let n = Num::new(123456789);
    let m = Num::new(-3803);
    let p = Num::mul(&n, &m);
    let q = Num::div(&p, &m);
    assert!(q == n);
}

#[test]
fn carries_cross_limb_boundaries() {
    // 2^32 - 1 plus one is 2^32, a two-limb value.
    let a = Num::new(4294967295);
    let b = Num::add(&a, &Num::one());
    assert!(b.to_string() == "4294967296");
    let c = Num::mul(&b, &b);
    assert!(c.to_string() == "18446744073709551616");
    let back = Num::div(&c, &b);
    assert!(back == b);
}

#[test]
fn division_truncates_toward_zero_and_rem_keeps_dividend_sign() {
    let a = Num::new(-7);
    let b = Num::new(2);
    let q = Num::div(&a, &b);
    assert!(q.to_string() == "-3");
    let r = Num::rem(&a, &b);
    assert!(r.to_string() == "-1");
}

#[test]
fn gcd_of_magnitudes() {
    let a = Num::new(-48);
    let b = Num::new(18);
    let g = Num::gcd(&a, &b);
    assert!(g.to_string() == "6");
}

#[test]
fn to_string_base_renders_hex_and_binary() {
    let a = Num::new(255);
    assert!(a.to_string_base(16) == "ff");
    assert!(a.to_string_base(2) == "11111111");
    let m = Num::new(-255);
    assert!(m.to_string_base(16) == "-ff");
    assert!(Num::zero().to_string() == "0");
}

#[test]
fn from_vec_trims_and_is_nonnegative() {
    let a = Num::from_vec(vec![5, 0, 0]);
    assert!(a.to_string() == "5");
    assert!(a.is_pos());
}

#[test]
fn minus_and_neg_flip_the_sign() {
    let mut a = Num::new(7);
    a.minus();
    assert!(a.to_string() == "-7");
    let b = Num::neg(&a);
    assert!(b.to_string() == "7");
}

#[test]
fn flip_twice_returns_finite_nonzero_value() {
    // 2/3 in canonical form.
    let x = Number::from_int(2).div(&Number::from_int(3));
    let back = x.flip().flip();
    assert!(matches!(back.cmp(&x), NumOrder::Equal));
}

#[test]
fn value_plus_negation_is_zero() {
    let x = Number::from_int(5).div(&Number::from_int(4));
    let s = x.add(&x.neg());
    assert!(s.is_zero());
}

#[test]
fn infinity_minus_itself_is_undefined() {
    let inf = Number::pos_inf();
    assert!(inf.sub(&inf).is_nan());
    let ninf = Number::neg_inf();
    assert!(ninf.sub(&ninf).is_nan());
}

#[test]
fn division_by_zero_gives_signed_infinity() {
    let one = Number::from_int(1);
    let z = Number::zero();
    let r = one.div(&z);
    assert!(matches!(r.cmp(&Number::pos_inf()), NumOrder::Equal));
    let m = Number::from_int(-1).div(&z);
    assert!(matches!(m.cmp(&Number::neg_inf()), NumOrder::Equal));
    assert!(z.div(&z).is_nan());
}

#[test]
fn nan_absorbs_every_operation() {
    let nan = Number::nan();
    let one = Number::from_int(1);
    assert!(nan.add(&one).is_nan());
    assert!(one.mul(&nan).is_nan());
    assert!(nan.flip().is_nan());
    assert!(matches!(one.cmp(&nan), NumOrder::Unordered));
}

#[test]
fn zero_times_infinity_is_undefined() {
    let z = Number::zero();
    assert!(z.mul(&Number::pos_inf()).is_nan());
    assert!(Number::neg_inf().mul(&z).is_nan());
}

#[test]
fn floor_rounds_down_for_negatives() {
    let x = Number::from_int(-7).div(&Number::from_int(2));
    let f = x.floor();
    assert!(matches!(f.cmp(&Number::from_int(-4)), NumOrder::Equal));
    let y = Number::from_int(7).div(&Number::from_int(2));
    assert!(matches!(y.floor().cmp(&Number::from_int(3)), NumOrder::Equal));
}

#[test]
fn comparison_orders_rationals_by_value() {
    let a = Number::from_int(1).div(&Number::from_int(3));
    let b = Number::from_int(1).div(&Number::from_int(2));
    assert!(matches!(a.cmp(&b), NumOrder::Less));
    assert!(matches!(b.cmp(&a), NumOrder::Greater));
    assert!(matches!(Number::pos_inf().cmp(&b), NumOrder::Greater));
    assert!(matches!(Number::neg_inf().cmp(&b), NumOrder::Less));
}

#[test]
fn to_int_floors_and_saturates() {
    let x = Number::from_int(-7).div(&Number::from_int(2));
    assert!(x.to_int() == -4);
    assert!(Number::from_int(9).div(&Number::from_int(4)).to_int() == 2);
    assert!(Number::nan().to_int() == 0);
    assert!(Number::pos_inf().to_int() == isize::MAX);
    assert!(Number::neg_inf().to_int() == isize::MIN);
}
