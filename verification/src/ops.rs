//! Operations on sorted values.
//!
//! Every non-exception operation is one call of `resolve_sort`. The
//! exceptions (division, remainder, comparison) have their own match because
//! the sort transition depends on the inner values.
use vstd::prelude::*;
use vstd::std_specs::ops::{AddSpec, SubSpec, MulSpec, NegSpec, DivSpec, RemSpec};
use vstd::std_specs::cmp::PartialEqSpec;
use crate::val::{resolve_sort, resolve_sort_unary, sort_of, universal_pattern, Arithmetic, Val, Zero};
use crate::ir::{is_exception, Op, Sort};
use crate::pass_resolve::static_sort;

verus! {

fn plus<T: Arithmetic>(x: T, y: T) -> (z: T)
    requires
        x.add_req(y),
    ensures
        T::obeys_add_spec() ==> z == x.add_spec(y),
{
    x + y
}

/// Addition: the universal pattern over `+`.
pub fn val_add<T: Arithmetic>(a: Val<T>, b: Val<T>) -> (r: Val<T>)
    requires
        (a, b) matches (Val::Contents(x), Val::Contents(y)) ==> x.add_req(y),
    ensures
        universal_pattern(a, b, r, |x: T, y: T, z: T| T::obeys_add_spec() ==> z == x.add_spec(y)),
{
    resolve_sort(a, b, plus::<T>)
}

fn minus<T: Arithmetic>(x: T, y: T) -> (z: T)
    requires
        x.sub_req(y),
    ensures
        T::obeys_sub_spec() ==> z == x.sub_spec(y),
{
    x - y
}

/// Subtraction: the universal pattern over `-`.
pub fn val_sub<T: Arithmetic>(a: Val<T>, b: Val<T>) -> (r: Val<T>)
    requires
        (a, b) matches (Val::Contents(x), Val::Contents(y)) ==> x.sub_req(y),
    ensures
        universal_pattern(a, b, r, |x: T, y: T, z: T| T::obeys_sub_spec() ==> z == x.sub_spec(y)),
{
    resolve_sort(a, b, minus::<T>)
}

fn times<T: Arithmetic>(x: T, y: T) -> (z: T)
    requires
        x.mul_req(y),
    ensures
        T::obeys_mul_spec() ==> z == x.mul_spec(y),
{
    x * y
}

/// Multiplication: the universal pattern over `*`.
pub fn val_mul<T: Arithmetic>(a: Val<T>, b: Val<T>) -> (r: Val<T>)
    requires
        (a, b) matches (Val::Contents(x), Val::Contents(y)) ==> x.mul_req(y),
    ensures
        universal_pattern(a, b, r, |x: T, y: T, z: T| T::obeys_mul_spec() ==> z == x.mul_spec(y)),
{
    resolve_sort(a, b, times::<T>)
}

fn negate<T: Arithmetic>(x: T) -> (z: T)
    requires
        x.neg_req(),
    ensures
        T::obeys_neg_spec() ==> z == x.neg_spec(),
{
    x.neg()
}

/// The negation of a sorted value, for a payload type whose `-` obeys its
/// specification: origin and containers stay as they are, contents negate.
pub open spec fn neg_val<T: Arithmetic>(a: Val<T>) -> Val<T> {
    match a {
        Val::Origin => Val::Origin,
        Val::Container(x) => Val::Container(x),
        Val::Contents(x) => Val::Contents(x.neg_spec()),
    }
}

/// Negation: the universal pattern for one operand.
pub fn val_neg<T: Arithmetic>(a: Val<T>) -> (r: Val<T>)
    requires
        a matches Val::Contents(x) ==> x.neg_req(),
    ensures
        match a {
            Val::Origin => r == Val::<T>::Origin,
            Val::Container(x) => r == Val::Container(x),
            Val::Contents(x) => r matches Val::Contents(z) && (T::obeys_neg_spec() ==> z == x.neg_spec()),
        },
        T::obeys_neg_spec() ==> r == neg_val(a),
{
    resolve_sort_unary(a, negate::<T>)
}

/// Negating twice gives the value back, for a payload type whose `-`
/// obeys its specification and a payload `x` with `-(-x) == x`.
pub proof fn law_double_negation<T: Arithmetic>(a: Val<T>)
    requires
        T::obeys_neg_spec(),
        a matches Val::Contents(x) ==> x.neg_spec().neg_spec() == x,
    ensures
        neg_val(neg_val(a)) == a,
{
}

/// The divisor rules shared by division and remainder, where `computed`
/// stands for the operation on two contents with a nonzero divisor:
/// `x / 0` for nonzero `x` is `Container(x)`, `0 / 0` is `Origin`.
pub open spec fn divisor_pattern<T: Zero>(a: Val<T>, b: Val<T>, r: Val<T>, computed: spec_fn(T, T, T) -> bool) -> bool {
    match (a, b) {
        (Val::Origin, _) => r == Val::<T>::Origin,
        (_, Val::Origin) => r == Val::<T>::Origin,
        (Val::Container(x), _) => r == Val::Container(x),
        (_, Val::Container(y)) => r == Val::Container(y),
        (Val::Contents(x), Val::Contents(y)) => if y.is_zero_spec() {
            if x.is_zero_spec() {
                r == Val::<T>::Origin
            } else {
                r == Val::Container(x)
            }
        } else {
            r matches Val::Contents(z) && computed(x, y, z)
        },
    }
}

/// What division of two contents computes: `x / y`, as far as the payload
/// type's `/` obeys its specification.
pub open spec fn div_computed<T: Arithmetic>() -> spec_fn(T, T, T) -> bool {
    |x: T, y: T, z: T| T::obeys_div_spec() ==> z == x.div_spec(y)
}

/// What remainder of two contents computes: `x % y`, as far as the payload
/// type's `%` obeys its specification.
pub open spec fn rem_computed<T: Arithmetic + core::ops::Rem<Output = T>>() -> spec_fn(T, T, T) -> bool {
    |x: T, y: T, z: T| T::obeys_rem_spec() ==> z == x.rem_spec(y)
}

/// Division. Three cases where a flat IR has one.
///
/// contents(a) / contents(b) where b is not zero = contents(a / b)
/// contents(a) / contents(0) where a is not zero = container(a)
/// contents(0) / contents(0)                     = origin
pub fn val_div<T: Arithmetic>(a: Val<T>, b: Val<T>) -> (r: Val<T>)
    requires
        (a, b) matches (Val::Contents(x), Val::Contents(y)) ==> (!y.is_zero_spec() ==> x.div_req(y)),
    ensures
        divisor_pattern(a, b, r, div_computed::<T>()),
{
    match (a, b) {
        (Val::Origin, _) => Val::Origin,
        (_, Val::Origin) => Val::Origin,
        (Val::Container(x), _) => Val::Container(x),
        (_, Val::Container(y)) => Val::Container(y),
        (Val::Contents(x), Val::Contents(y)) => {
            if y.is_zero() {
                if x.is_zero() {
                    Val::Origin
                } else {
                    Val::Container(x)
                }
            } else {
                Val::Contents(x / y)
            }
        },
    }
}

/// Remainder. Same divisor rules as division.
pub fn val_rem<T: Arithmetic + core::ops::Rem<Output = T>>(a: Val<T>, b: Val<T>) -> (r: Val<T>)
    requires
        (a, b) matches (Val::Contents(x), Val::Contents(y)) ==> (!y.is_zero_spec() ==> x.rem_req(y)),
    ensures
        divisor_pattern(a, b, r, rem_computed::<T>()),
{
    match (a, b) {
        (Val::Origin, _) => Val::Origin,
        (_, Val::Origin) => Val::Origin,
        (Val::Container(x), _) => Val::Container(x),
        (_, Val::Container(y)) => Val::Container(y),
        (Val::Contents(x), Val::Contents(y)) => {
            if y.is_zero() {
                if x.is_zero() {
                    Val::Origin
                } else {
                    Val::Container(x)
                }
            } else {
                Val::Contents(x % y)
            }
        },
    }
}

/// Comparison. `origin == origin` is origin (the ground cannot be compared
/// to itself); origin against a contents or container value is
/// `contents(false)`; a comparison that involves a container and no origin
/// is origin; two contents compare their payloads.
pub fn val_eq<T: Arithmetic>(a: &Val<T>, b: &Val<T>) -> (r: Val<bool>)
    ensures
        match (*a, *b) {
            (Val::Origin, Val::Origin) => r == Val::<bool>::Origin,
            (Val::Origin, _) => r == Val::Contents(false),
            (_, Val::Origin) => r == Val::Contents(false),
            (Val::Container(_), _) => r == Val::<bool>::Origin,
            (_, Val::Container(_)) => r == Val::<bool>::Origin,
            (Val::Contents(x), Val::Contents(y)) => r matches Val::Contents(e) && (T::obeys_eq_spec() ==> e == x.eq_spec(&y)),
        },
{
    match (a, b) {
        (Val::Origin, Val::Origin) => Val::Origin,
        (Val::Origin, _) => Val::Contents(false),
        (_, Val::Origin) => Val::Contents(false),
        (Val::Container(_), _) => Val::Origin,
        (_, Val::Container(_)) => Val::Origin,
        (Val::Contents(x), Val::Contents(y)) => Val::Contents(x == y),
    }
}

proof fn lemma_pair_contains(x: Sort, y: Sort, t: Sort)
    ensures
        seq![x, y].contains(t) <==> (x == t || y == t),
{
    if x == t {
        assert(seq![x, y][0] == t);
    }
    if y == t {
        assert(seq![x, y][1] == t);
    }
}

/// Static resolution agrees with evaluation: for a non-exception operation
/// on two values, the sort of the value the universal pattern gives is the
/// sort the lattice computes from the operands' sorts.
pub proof fn law_static_sort_matches_values<T, C>(
    op: Op<C>,
    a: Val<T>,
    b: Val<T>,
    r: Val<T>,
    computed: spec_fn(T, T, T) -> bool,
)
    requires
        !is_exception(op),
        universal_pattern(a, b, r, computed),
    ensures
        sort_of(r) == static_sort(op, seq![sort_of(a), sort_of(b)]),
{
    lemma_pair_contains(sort_of(a), sort_of(b), Sort::Origin);
    lemma_pair_contains(sort_of(a), sort_of(b), Sort::Unknown);
    lemma_pair_contains(sort_of(a), sort_of(b), Sort::Container);
}

/// The same agreement for division and remainder, wherever the lattice
/// decides the sort statically (a contents divisor is decided only when the
/// values are known, so there the lattice answers unknown).
pub proof fn law_static_sort_matches_division<T: Zero, C>(
    op: Op<C>,
    a: Val<T>,
    b: Val<T>,
    r: Val<T>,
    computed: spec_fn(T, T, T) -> bool,
)
    requires
        is_exception(op),
        divisor_pattern(a, b, r, computed),
        static_sort(op, seq![sort_of(a), sort_of(b)]) != Sort::Unknown,
    ensures
        sort_of(r) == static_sort(op, seq![sort_of(a), sort_of(b)]),
{
    lemma_pair_contains(sort_of(a), sort_of(b), Sort::Origin);
    lemma_pair_contains(sort_of(a), sort_of(b), Sort::Unknown);
    lemma_pair_contains(sort_of(a), sort_of(b), Sort::Container);
}

/// The same agreement for operations on one value.
pub proof fn law_static_sort_matches_unary<T, C>(op: Op<C>, a: Val<T>, r: Val<T>, computed: spec_fn(T, T) -> bool)
    requires
        !is_exception(op),
        match a {
            Val::Origin => r == Val::<T>::Origin,
            Val::Container(x) => r == Val::Container(x),
            Val::Contents(x) => r matches Val::Contents(z) && computed(x, z),
        },
    ensures
        sort_of(r) == static_sort(op, seq![sort_of(a)]),
{
    let ss = seq![sort_of(a)];
    assert(ss[0] == sort_of(a));
    assert forall|t: Sort| ss.contains(t) <==> t == sort_of(a) by {
        if ss.contains(t) {
            let k = choose|k: int| 0 <= k < ss.len() && ss[k] == t;
        }
    }
}

/// Division and remainder of two `i64` contents, stated on the integers: a
/// nonzero divisor gives contents of the quotient (remainder), a zero
/// divisor gives a container of the dividend when it is nonzero, and
/// `0 / 0` is origin.
pub proof fn law_i64_division(x: i64, y: i64, q: Val<i64>, m: Val<i64>)
    requires
        divisor_pattern(Val::Contents(x), Val::Contents(y), q, div_computed::<i64>()),
        divisor_pattern(Val::Contents(x), Val::Contents(y), m, rem_computed::<i64>()),
    ensures
        y != 0 ==> q == Val::Contents(x.div_spec(y)) && m == Val::Contents(x.rem_spec(y)),
        y == 0 && x != 0 ==> q == Val::Container(x) && m == Val::Container(x),
        y == 0 && x == 0 ==> q == Val::<i64>::Origin && m == Val::<i64>::Origin,
{
}

/// The same for `i32`.
pub proof fn law_i32_division(x: i32, y: i32, q: Val<i32>, m: Val<i32>)
    requires
        divisor_pattern(Val::Contents(x), Val::Contents(y), q, div_computed::<i32>()),
        divisor_pattern(Val::Contents(x), Val::Contents(y), m, rem_computed::<i32>()),
    ensures
        y != 0 ==> q == Val::Contents(x.div_spec(y)) && m == Val::Contents(x.rem_spec(y)),
        y == 0 && x != 0 ==> q == Val::Container(x) && m == Val::Container(x),
        y == 0 && x == 0 ==> q == Val::<i32>::Origin && m == Val::<i32>::Origin,
{
}

} // verus!
