use lib::val::{resolve_sort, resolve_sort_unary, Val};

// --- The four rules ---

#[test]
fn i1_origin_absorbs_left() {
    let result = resolve_sort(Val::Origin, Val::Contents(42i64), |a, b| a + b);
    assert_eq!(result, Val::Origin);
}

#[test]
fn i2_origin_absorbs_right() {
    let result = resolve_sort(Val::Contents(42i64), Val::Origin, |a, b| a + b);
    assert_eq!(result, Val::Origin);
}

#[test]
fn i3_origin_absorbs_origin() {
    let result: Val<i64> = resolve_sort(Val::Origin, Val::Origin, |a, b| a + b);
    assert_eq!(result, Val::Origin);
}

#[test]
fn contents_closure() {
    let result = resolve_sort(Val::Contents(3i64), Val::Contents(4i64), |a, b| a + b);
    assert_eq!(result, Val::Contents(7));
}

// --- The critical distinction ---

#[test]
fn contents_zero_times_five_is_contents() {
    let result = resolve_sort(Val::Contents(0i64), Val::Contents(5i64), |a, b| a * b);
    assert_eq!(result, Val::Contents(0));
}

#[test]
fn origin_times_five_is_origin() {
    let result = resolve_sort(Val::Origin, Val::Contents(5i64), |a, b| a * b);
    assert_eq!(result, Val::Origin);
}

// --- Container propagation ---

#[test]
fn container_propagates_left() {
    let result = resolve_sort(Val::Container(7i64), Val::Contents(3i64), |a, b| a + b);
    assert_eq!(result, Val::Container(7));
}

#[test]
fn container_propagates_right() {
    let result = resolve_sort(Val::Contents(3i64), Val::Container(7i64), |a, b| a + b);
    assert_eq!(result, Val::Container(7));
}

#[test]
fn origin_absorbs_container() {
    let result = resolve_sort(Val::Origin, Val::Container(7i64), |a, b| a + b);
    assert_eq!(result, Val::Origin);
}

#[test]
fn first_container_is_preserved() {
    let result = resolve_sort(Val::Container(7i64), Val::Container(9i64), |a, b| a + b);
    assert_eq!(result, Val::Container(7));
}

// --- Unary ---

#[test]
fn unary_contents() {
    let result = resolve_sort_unary(Val::Contents(5i64), |x| -x);
    assert_eq!(result, Val::Contents(-5));
}

#[test]
fn unary_origin() {
    let result: Val<i64> = resolve_sort_unary(Val::Origin, |x| -x);
    assert_eq!(result, Val::Origin);
}

#[test]
fn unary_container_keeps_value() {
    let result = resolve_sort_unary(Val::Container(5i64), |x| -x);
    assert_eq!(result, Val::Container(5));
}
