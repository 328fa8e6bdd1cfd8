//! Counting the indices below a bound that satisfy a predicate.
use vstd::prelude::*;

verus! {

/// The number of indices `i` in `0..n` with `f(i)`.
pub open spec fn count_if(n: int, f: spec_fn(int) -> bool) -> nat
    decreases n,
{
    if n <= 0 {
        0
    } else {
        count_if(n - 1, f) + if f(n - 1) { 1nat } else { 0nat }
    }
}

/// A count never exceeds the number of indices.
pub proof fn lemma_count_if_bounded(n: int, f: spec_fn(int) -> bool)
    ensures
        count_if(n, f) <= if n <= 0 { 0 } else { n },
    decreases n,
{
    if n > 0 {
        lemma_count_if_bounded(n - 1, f);
    }
}

/// Two predicates that agree below `n` count the same.
pub proof fn lemma_count_if_ext(n: int, f: spec_fn(int) -> bool, g: spec_fn(int) -> bool)
    requires
        forall|i: int| #![trigger f(i)] #![trigger g(i)] 0 <= i < n ==> f(i) == g(i),
    ensures
        count_if(n, f) == count_if(n, g),
    decreases n,
{
    if n > 0 {
        lemma_count_if_ext(n - 1, f, g);
    }
}

/// Turning one index from false to true adds one to the count.
pub proof fn lemma_count_if_add_one(n: int, f: spec_fn(int) -> bool, g: spec_fn(int) -> bool, k: int)
    requires
        0 <= k < n,
        !f(k),
        g(k),
        forall|i: int| #![trigger f(i)] #![trigger g(i)] 0 <= i < n && i != k ==> f(i) == g(i),
    ensures
        count_if(n, g) == count_if(n, f) + 1,
    decreases n,
{
    if n - 1 == k {
        lemma_count_if_ext(n - 1, f, g);
    } else {
        lemma_count_if_add_one(n - 1, f, g, k);
    }
}

/// A count is at most another when the first predicate implies the second.
pub proof fn lemma_count_if_mono(n: int, f: spec_fn(int) -> bool, g: spec_fn(int) -> bool)
    requires
        forall|i: int| #![trigger f(i)] #![trigger g(i)] 0 <= i < n && f(i) ==> g(i),
    ensures
        count_if(n, f) <= count_if(n, g),
    decreases n,
{
    if n > 0 {
        lemma_count_if_mono(n - 1, f, g);
    }
}

/// A predicate that holds nowhere below `n` counts zero.
pub proof fn lemma_count_if_none(n: int, f: spec_fn(int) -> bool)
    requires
        forall|i: int| 0 <= i < n ==> !#[trigger] f(i),
    ensures
        count_if(n, f) == 0,
    decreases n,
{
    if n > 0 {
        lemma_count_if_none(n - 1, f);
    }
}

/// A positive count has a witness.
pub proof fn lemma_count_if_witness(n: int, f: spec_fn(int) -> bool)
    requires
        count_if(n, f) > 0,
    ensures
        exists|i: int| 0 <= i < n && #[trigger] f(i),
    decreases n,
{
    if n > 0 && !f(n - 1) {
        lemma_count_if_witness(n - 1, f);
    }
}

/// A count splits over a predicate that is the disjoint union of two others.
pub proof fn lemma_count_if_split(n: int, f: spec_fn(int) -> bool, g: spec_fn(int) -> bool, h: spec_fn(int) -> bool)
    requires
        forall|i: int| #![trigger f(i)] 0 <= i < n ==> (f(i) <==> (g(i) || h(i))),
        forall|i: int| #![trigger g(i)] #![trigger h(i)] 0 <= i < n ==> !(g(i) && h(i)),
    ensures
        count_if(n, f) == count_if(n, g) + count_if(n, h),
    decreases n,
{
    if n > 0 {
        lemma_count_if_split(n - 1, f, g, h);
        assert(f(n - 1) <==> (g(n - 1) || h(n - 1)));
    }
}

/// A count over `a + b` indices splits into the first `a` and the next `b`.
pub proof fn lemma_count_if_append(a: int, b: int, f: spec_fn(int) -> bool)
    requires
        0 <= a,
        0 <= b,
    ensures
        count_if(a + b, f) == count_if(a, f) + count_if(b, |k: int| f(a + k)),
    decreases b,
{
    if b > 0 {
        lemma_count_if_append(a, b - 1, f);
        let g = |k: int| f(a + k);
        assert(count_if(b, g) == count_if(b - 1, g) + if g(b - 1) { 1nat } else { 0nat });
    }
}

/// The number of offsets below 18 other than `skip`.
pub proof fn lemma_count_all_but_one(f: spec_fn(int) -> bool, skip: int)
    requires
        0 <= skip < 18,
        forall|k: int| #![trigger f(k)] 0 <= k < 18 ==> (f(k) <==> k != skip),
    ensures
        count_if(18, f) == 17,
{
    let g = |k: int| k != skip;
    lemma_count_if_ext(18, f, g);
    reveal_with_fuel(count_if, 19);
}

} // verus!
