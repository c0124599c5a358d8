use quantum_stdlib::option::Option;

#[test]
fn is_some_and_is_none_report_the_variant() {
    let x: Option<u64> = Option::Present(42);
    assert!(x.is_some());
    assert!(!x.is_none());
    let y: Option<u64> = Option::Absent;
    assert!(!y.is_some());
    assert!(y.is_none());
}

#[test]
fn unwrap_or_takes_value_or_default() {
    let x: Option<u64> = Option::Present(42);
    assert_eq!(x.unwrap_or(0), 42);
    let y: Option<u64> = Option::Absent;
    assert_eq!(y.unwrap_or(0), 0);
}

#[test]
fn unwrap_or_else_computes_default_only_when_absent() {
    let x: Option<u64> = Option::Present(42);
    assert_eq!(x.unwrap_or_else(|| 0), 42);
    let y: Option<u64> = Option::Absent;
    assert_eq!(y.unwrap_or_else(|| 100), 100);
}

#[test]
fn unwrap_gives_the_held_value() {
    let x: Option<u64> = Option::Present(42);
    assert_eq!(x.unwrap(), 42);
}

#[test]
fn map_transforms_present_values() {
    let x: Option<u64> = Option::Present(42);
    assert_eq!(x.map(|v| v * 2), Option::Present(84));
    let z: Option<u64> = Option::Absent;
    assert_eq!(z.map(|v| v * 2), Option::Absent);
}

#[test]
fn and_then_chains_optional_computations() {
    let x: Option<u64> = Option::Present(42);
    assert_eq!(x.and_then(|v| Option::Present(v * 2)), Option::Present(84));
    assert_eq!(x.and_then(|_| Option::Absent::<u64>), Option::Absent);
    let y: Option<u64> = Option::Absent;
    assert_eq!(y.and_then(|v| Option::Present(v * 2)), Option::Absent);
}

#[test]
fn filter_keeps_only_satisfying_values() {
    let x: Option<u64> = Option::Present(42);
    assert_eq!(x.filter(|v| v > 40), Option::Present(42));
    assert_eq!(x.filter(|v| v > 50), Option::Absent);
    let y: Option<u64> = Option::Absent;
    assert_eq!(y.filter(|v| v > 0), Option::Absent);
}

#[test]
fn as_ref_borrows_the_value() {
    let x: Option<u64> = Option::Present(42);
    assert_eq!(x.as_ref(), Option::Present(&42));
    let y: Option<u64> = Option::Absent;
    assert_eq!(y.as_ref(), Option::Absent);
}

#[test]
fn as_mut_allows_writing_through() {
    let mut x: Option<u64> = Option::Present(42);
    if let Option::Present(v) = x.as_mut() {
        *v = 100;
    }
    assert_eq!(x, Option::Present(100));
    let mut y: Option<u64> = Option::Absent;
    assert!(matches!(y.as_mut(), Option::Absent));
    assert_eq!(y, Option::Absent);
}

#[test]
fn map_or_applies_or_defaults() {
    let x: Option<u64> = Option::Present(42);
    assert_eq!(x.map_or(0, |v| v * 2), 84);
    let z: Option<u64> = Option::Absent;
    assert_eq!(z.map_or(0, |v| v * 2), 0);
}

#[test]
fn and_takes_the_second_when_first_is_present() {
    let x: Option<u64> = Option::Present(42);
    let y: Option<u64> = Option::Present(100);
    assert_eq!(x.and(y), Option::Present(100));
    let z: Option<u64> = Option::Absent;
    assert_eq!(z.and(y), Option::Absent);
    assert_eq!(x.and(Option::Absent::<u64>), Option::Absent);
}

#[test]
fn or_prefers_the_first_when_present() {
    let x: Option<u64> = Option::Present(42);
    let y: Option<u64> = Option::Present(100);
    assert_eq!(x.or(y), Option::Present(42));
    let a: Option<u64> = Option::Absent;
    assert_eq!(a.or(y), Option::Present(100));
    assert_eq!(a.or(Option::Absent), Option::Absent::<u64>);
}
