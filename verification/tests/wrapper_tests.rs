//! The checked and unchecked capability constructors, and the outer items.

use enterpolation::list::DiscreteGenerator;
use enterpolation::list::NonEmpty;
use enterpolation::list::NonEmptyGenerator;
use enterpolation::list::Sorted;
use enterpolation::list::SortedList;
use enterpolation::EnterpolationError;
use enterpolation::Interpolation;

#[test]
fn non_empty_rejects_empty() {
    let empty: Vec<i64> = Vec::new();
    assert!(NonEmpty::new(empty).is_none());
}

#[test]
fn non_empty_accepts_and_returns_collection() {
    let wrapped = NonEmpty::new(vec![1, 2, 3]).unwrap();
    assert_eq!(wrapped.len(), 3);
    assert_eq!(wrapped.gen(1), 2);
    assert_eq!(wrapped.first(), 1);
    assert_eq!(wrapped.last(), 3);
    assert_eq!(wrapped.get(), vec![1, 2, 3]);
}

#[test]
fn non_empty_unchecked_passes_through() {
    let wrapped = NonEmpty::new_unchecked(vec![7, 8]);
    assert_eq!(wrapped.len(), 2);
    assert_eq!(wrapped.gen(0), 7);
}

#[test]
fn sorted_accepts_sorted_collections() {
    let sorted = Sorted::new(vec![1, 2, 2, 5]).unwrap();
    assert_eq!(sorted.len(), 4);
    assert_eq!(sorted.gen(2), 2);
}

#[test]
fn sorted_accepts_empty_collection() {
    let empty: Vec<i64> = Vec::new();
    assert!(Sorted::new(empty).is_some());
}

#[test]
fn sorted_rejects_unsorted_collections() {
    assert!(Sorted::new(vec![1, 3, 2]).is_none());
    assert!(Sorted::new(vec![2, 1]).is_none());
}

#[test]
fn sorted_unchecked_passes_through() {
    let wrapped = Sorted::new_unchecked(vec![3, 1]);
    assert_eq!(wrapped.len(), 2);
    assert_eq!(wrapped.gen(1), 1);
}

#[test]
fn is_empty_reports_length() {
    let empty: Vec<i64> = Vec::new();
    assert!(empty.is_empty());
    assert!(!vec![1i64].is_empty());
}

#[test]
fn capabilities_stack_in_either_order() {
    let outer_sorted = Sorted::new(NonEmpty::new(vec![2, 4, 8]).unwrap()).unwrap();
    let outer_non_empty = NonEmpty::new(Sorted::new(vec![2, 4, 8]).unwrap()).unwrap();
    for q in [1, 2, 5, 8, 9] {
        assert_eq!(outer_sorted.lower_bound(q), outer_non_empty.lower_bound(q));
        assert_eq!(outer_sorted.upper_bound(q), outer_non_empty.upper_bound(q));
        assert_eq!(outer_sorted.upper_border(q), outer_non_empty.upper_border(q));
    }
}

struct Doubling;

impl Interpolation for Doubling {
    type Input = i64;
    type Output = i64;

    fn get(&self, scalar: i64) -> i64 {
        2 * scalar
    }
}

#[test]
fn interpolation_evaluates() {
    let curve = Doubling;
    assert_eq!(curve.get(21), 42);
}

#[test]
fn error_variants_carry_their_context() {
    let a = EnterpolationError::ToFewElements {
        name: String::from("linear"),
        found: 1,
        expected: 2,
    };
    let b = EnterpolationError::InvalidNumberKnots {
        name: String::from("bspline"),
        found: 3,
        expected: String::from("at least 4"),
    };
    assert_ne!(a.clone(), b.clone());
    assert_eq!(a.clone(), a);
    match b {
        EnterpolationError::InvalidNumberKnots { found, .. } => assert_eq!(found, 3),
        EnterpolationError::ToFewElements { .. } => panic!("wrong variant"),
    }
}
