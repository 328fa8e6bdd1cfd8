//! Sorted values: every value is `Origin`, `Container(x)` or `Contents(x)`.
use vstd::prelude::*;

verus! {

/// The three sorts. Origin absorbs. Container preserves. Contents computes.
#[derive(Debug, Clone, PartialEq)]
pub enum Val<T> {
    /// Nothing to retrieve. Everything downstream folds.
    Origin,
    /// Boundary crossed. Last known value preserved.
    Container(T),
    /// Safe territory. Arithmetic lives here.
    Contents(T),
}

/// The zero test: a type says which of its values is its zero.
/// This is the quantity zero (`Contents(0)`), not the ground (`Origin`).
pub trait Zero: Sized {
    /// Whether this value is the type's zero.
    spec fn is_zero_spec(&self) -> bool;

    fn zero() -> (z: Self)
        ensures
            z.is_zero_spec(),
    ;

    fn is_zero(&self) -> (b: bool)
        ensures
            b == self.is_zero_spec(),
    ;
}

/// The sign test, needed by the operations whose sort depends on the sign.
pub trait Signed: Zero {
    /// Whether this value is below zero.
    spec fn is_negative_spec(&self) -> bool;

    fn is_negative(&self) -> (b: bool)
        ensures
            b == self.is_negative_spec(),
    ;
}

/// What a payload type needs to be able to do inside contents.
pub trait Arithmetic:
    core::ops::Add<Output = Self>
    + core::ops::Sub<Output = Self>
    + core::ops::Mul<Output = Self>
    + core::ops::Div<Output = Self>
    + core::ops::Neg<Output = Self>
    + PartialEq
    + PartialOrd
    + Clone
    + Zero
{
}

impl Zero for i64 {
    open spec fn is_zero_spec(&self) -> bool {
        *self == 0
    }

    fn zero() -> (z: Self)
        ensures
            z == 0,
    {
        0
    }

    fn is_zero(&self) -> (b: bool)
        ensures
            b == (*self == 0),
    {
        *self == 0
    }
}

impl Signed for i64 {
    open spec fn is_negative_spec(&self) -> bool {
        *self < 0
    }

    fn is_negative(&self) -> (b: bool)
        ensures
            b == (*self < 0),
    {
        *self < 0
    }
}

impl Arithmetic for i64 {}

impl Zero for i32 {
    open spec fn is_zero_spec(&self) -> bool {
        *self == 0
    }

    fn zero() -> (z: Self)
        ensures
            z == 0,
    {
        0
    }

    fn is_zero(&self) -> (b: bool)
        ensures
            b == (*self == 0),
    {
        *self == 0
    }
}

impl Signed for i32 {
    open spec fn is_negative_spec(&self) -> bool {
        *self < 0
    }

    fn is_negative(&self) -> (b: bool)
        ensures
            b == (*self < 0),
    {
        *self < 0
    }
}

impl Arithmetic for i32 {}


/// The sort of a sorted value, as the static analysis sees it.
pub open spec fn sort_of<T>(v: Val<T>) -> crate::ir::Sort {
    match v {
        Val::Origin => crate::ir::Sort::Origin,
        Val::Container(_) => crate::ir::Sort::Container,
        Val::Contents(_) => crate::ir::Sort::Contents,
    }
}

/// The universal pattern for a binary operation: what `resolve_sort` gives
/// for every sort combination, where `computed` stands for `op(x, y)`.
/// Origin absorbs; the first container is preserved; contents compute.
pub open spec fn universal_pattern<T>(a: Val<T>, b: Val<T>, r: Val<T>, computed: spec_fn(T, T, T) -> bool) -> bool {
    match (a, b) {
        (Val::Origin, _) => r == Val::<T>::Origin,
        (_, Val::Origin) => r == Val::<T>::Origin,
        (Val::Container(x), _) => r == Val::Container(x),
        (_, Val::Container(y)) => r == Val::Container(y),
        (Val::Contents(x), Val::Contents(y)) => r matches Val::Contents(z) && computed(x, y, z),
    }
}

/// The universal pattern. Every non-exception binary operation calls this.
///
/// Origin absorbs. Container propagates. Contents computes.
pub fn resolve_sort<T: Clone, F>(a: Val<T>, b: Val<T>, op: F) -> (r: Val<T>)
    where
        F: Fn(T, T) -> T,
    requires
        (a, b) matches (Val::Contents(x), Val::Contents(y)) ==> op.requires((x, y)),
    ensures
        universal_pattern(a, b, r, |x: T, y: T, z: T| op.ensures((x, y), z)),
{
    match (a, b) {
        (Val::Origin, _) => Val::Origin,
        (_, Val::Origin) => Val::Origin,
        (Val::Container(x), _) => Val::Container(x),
        (_, Val::Container(y)) => Val::Container(y),
        (Val::Contents(x), Val::Contents(y)) => Val::Contents(op(x, y)),
    }
}

/// The universal pattern for unary operations.
pub fn resolve_sort_unary<T, F>(a: Val<T>, op: F) -> (r: Val<T>)
    where
        F: Fn(T) -> T,
    requires
        a matches Val::Contents(x) ==> op.requires((x,)),
    ensures
        match a {
            Val::Origin => r == Val::<T>::Origin,
            Val::Container(x) => r == Val::Container(x),
            Val::Contents(x) => r matches Val::Contents(z) && op.ensures((x,), z),
        },
{
    match a {
        Val::Origin => Val::Origin,
        Val::Container(x) => Val::Container(x),
        Val::Contents(x) => Val::Contents(op(x)),
    }
}

/// For machine integers, the zero of the zero test is the integer 0 and
/// the sign test is `< 0`.
pub proof fn law_integer_zero_and_sign(x: i64, y: i32)
    ensures
        x.is_zero_spec() <==> x == 0,
        x.is_negative_spec() <==> x < 0,
        y.is_zero_spec() <==> y == 0,
        y.is_negative_spec() <==> y < 0,
{
}

} // verus!
