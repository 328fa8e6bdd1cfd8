use lib::ops::{val_add, val_div, val_eq, val_mul, val_neg, val_rem, val_sub};
use lib::val::{Arithmetic, Signed, Val, Zero};

/// A float payload for the tests that the library's operations run on
/// floating-point values.
#[derive(Debug, Clone, Copy, PartialEq, PartialOrd)]
struct F(f64);

impl std::ops::Add for F {
    type Output = F;
    fn add(self, o: F) -> F {
        F(self.0 + o.0)
    }
}

impl std::ops::Sub for F {
    type Output = F;
    fn sub(self, o: F) -> F {
        F(self.0 - o.0)
    }
}

impl std::ops::Mul for F {
    type Output = F;
    fn mul(self, o: F) -> F {
        F(self.0 * o.0)
    }
}

impl std::ops::Div for F {
    type Output = F;
    fn div(self, o: F) -> F {
        F(self.0 / o.0)
    }
}

impl std::ops::Neg for F {
    type Output = F;
    fn neg(self) -> F {
        F(-self.0)
    }
}

impl Zero for F {
    fn is_zero_spec(&self) -> bool {
        self.0 == 0.0
    }
    fn zero() -> F {
        F(0.0)
    }
    fn is_zero(&self) -> bool {
        self.0 == 0.0
    }
}

impl Arithmetic for F {}

// --- Addition ---

#[test]
fn add_contents() {
    assert_eq!(val_add(Val::Contents(3i64), Val::Contents(4)), Val::Contents(7));
}

#[test]
fn add_identity() {
    assert_eq!(val_add(Val::Contents(5i64), Val::Contents(0)), Val::Contents(5));
}

#[test]
fn add_origin_absorbs() {
    assert_eq!(val_add(Val::Origin, Val::Contents(5i64)), Val::Origin);
}

// --- Multiplication ---

#[test]
fn mul_contents() {
    assert_eq!(val_mul(Val::Contents(3i64), Val::Contents(4)), Val::Contents(12));
}

#[test]
fn mul_contents_zero_is_contents() {
    assert_eq!(val_mul(Val::Contents(0i64), Val::Contents(5)), Val::Contents(0));
}

#[test]
fn mul_origin_is_origin() {
    assert_eq!(val_mul(Val::Origin, Val::Contents(5i64)), Val::Origin);
}

// --- Division ---

#[test]
fn div_normal() {
    assert_eq!(val_div(Val::Contents(F(10.0)), Val::Contents(F(2.0))), Val::Contents(F(5.0)));
}

#[test]
fn div_zero_zero_is_origin() {
    assert_eq!(val_div(Val::Contents(F(0.0)), Val::Contents(F(0.0))), Val::Origin);
}

#[test]
fn div_n_zero_is_container() {
    assert_eq!(val_div(Val::Contents(F(7.0)), Val::Contents(F(0.0))), Val::Container(F(7.0)));
}

#[test]
fn div_origin_absorbs() {
    assert_eq!(val_div(Val::Origin, Val::Contents(F(5.0))), Val::Origin);
}

// --- Comparison ---

#[test]
fn eq_contents() {
    assert_eq!(val_eq(&Val::Contents(5i64), &Val::Contents(5)), Val::Contents(true));
}

#[test]
fn eq_contents_unequal() {
    assert_eq!(val_eq(&Val::Contents(5i64), &Val::Contents(3)), Val::Contents(false));
}

#[test]
fn eq_origin_origin_is_origin() {
    assert_eq!(val_eq::<i64>(&Val::Origin, &Val::Origin), Val::Origin);
}

#[test]
fn eq_origin_contents_is_false() {
    assert_eq!(val_eq(&Val::Origin, &Val::Contents(5i64)), Val::Contents(false));
}

// --- Chain folding ---

#[test]
fn origin_folds_chain() {
    let step1 = val_div(Val::Contents(F(0.0)), Val::Contents(F(0.0)));
    let step2 = val_mul(step1, Val::Contents(F(3.0)));
    let step3 = val_add(step2, Val::Contents(F(1.0)));
    assert_eq!(step3, Val::Origin);
}

#[test]
fn container_propagates_through_chain() {
    let step1 = val_div(Val::Contents(F(7.0)), Val::Contents(F(0.0)));
    let step2 = val_mul(step1, Val::Contents(F(3.0)));
    let step3 = val_add(step2, Val::Contents(F(1.0)));
    assert_eq!(step3, Val::Container(F(7.0)));
}

#[test]
fn contents_chain_computes() {
    let step1 = val_mul(Val::Contents(F(2.0)), Val::Contents(F(3.0)));
    let step2 = val_add(step1, Val::Contents(F(1.0)));
    let step3 = val_div(step2, Val::Contents(F(2.0)));
    assert_eq!(step3, Val::Contents(F(3.5)));
}

// --- Further cases ---

#[test]
fn sub_contents() {
    assert_eq!(val_sub(Val::Contents(10i64), Val::Contents(4)), Val::Contents(6));
}

#[test]
fn neg_contents_and_container() {
    assert_eq!(val_neg(Val::Contents(5i64)), Val::Contents(-5));
    assert_eq!(val_neg(Val::Container(5i64)), Val::Container(5));
    assert_eq!(val_neg::<i64>(Val::Origin), Val::Origin);
}

#[test]
fn rem_follows_divisor_rules() {
    assert_eq!(val_rem(Val::Contents(10i64), Val::Contents(3)), Val::Contents(1));
    assert_eq!(val_rem(Val::Contents(10i64), Val::Contents(0)), Val::Container(10));
    assert_eq!(val_rem(Val::Contents(0i64), Val::Contents(0)), Val::Origin);
}

#[test]
fn div_integers_and_containers() {
    assert_eq!(val_div(Val::Contents(10i64), Val::Contents(2)), Val::Contents(5));
    assert_eq!(val_div(Val::Container(4i64), Val::Contents(0)), Val::Container(4));
    assert_eq!(val_div(Val::Contents(4i64), Val::Container(9)), Val::Container(9));
}

#[test]
fn eq_with_container_is_origin() {
    assert_eq!(val_eq(&Val::Container(5i64), &Val::Contents(5)), Val::Origin);
    assert_eq!(val_eq(&Val::Contents(5i64), &Val::Origin), Val::Contents(false));
}

#[test]
fn zero_and_sign_tests() {
    assert!(<i64 as Zero>::zero().is_zero());
    assert!(!5i64.is_zero());
    assert!((-3i64).is_negative());
    assert!(!0i64.is_negative());
    assert!(<i32 as Zero>::zero().is_zero());
    assert!((-1i32).is_negative());
}
