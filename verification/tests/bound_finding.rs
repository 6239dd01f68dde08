//! Bound-finding over a plain sorted vector of knots.
//!
//! The scenario sequence is `[0.0, 0.1, 0.2, 0.7, 0.7, 0.7, 0.8, 1.0]` scaled
//! to hundredths, so each query of the original design appears times 100.

use enterpolation::list::NonEmpty;
use enterpolation::list::Sorted;
use enterpolation::list::SortedList;

fn knots() -> Sorted<NonEmpty<Vec<i64>>> {
    let arr: Vec<i64> = vec![0, 10, 20, 70, 70, 70, 80, 100];
    Sorted::new(NonEmpty::new(arr).unwrap()).unwrap()
}

#[test]
fn lower_bound_scenarios() {
    let list = knots();
    assert_eq!(list.lower_bound(-100), 0);
    assert_eq!(list.lower_bound(15), 1);
    assert_eq!(list.lower_bound(70), 5);
    assert_eq!(list.lower_bound(2000), 7);
}

#[test]
fn upper_bound_scenarios() {
    let list = knots();
    assert_eq!(list.upper_bound(-100), 0);
    assert_eq!(list.upper_bound(15), 2);
    assert_eq!(list.upper_bound(70), 3);
    assert_eq!(list.upper_bound(2000), 7);
}

#[test]
fn upper_border_scenarios() {
    let list = knots();
    assert_eq!(list.upper_border(-100), [0, 1]);
    assert_eq!(list.upper_border(15), [1, 2]);
    assert_eq!(list.upper_border(70), [5, 6]);
    assert_eq!(list.upper_border(2000), [6, 7]);
}

#[test]
fn lower_border_scenarios() {
    let list = knots();
    assert_eq!(list.lower_border(-100), [0, 1]);
    assert_eq!(list.lower_border(15), [1, 2]);
    assert_eq!(list.lower_border(70), [2, 3]);
    assert_eq!(list.lower_border(2000), [6, 7]);
}

#[test]
fn strict_bounds_scenarios() {
    let list = knots();
    // strict_upper_bound counts the elements <= query; at the all-smaller
    // edge it reaches the length itself
    assert_eq!(list.strict_upper_bound(-100), 0);
    assert_eq!(list.strict_upper_bound(15), 2);
    assert_eq!(list.strict_upper_bound(70), 6);
    assert_eq!(list.strict_upper_bound(2000), 8);
    // strict_lower_bound is the last index strictly below the query; at the
    // all-smaller edge it stays at the last index
    assert_eq!(list.strict_lower_bound(-100), 0);
    assert_eq!(list.strict_lower_bound(15), 1);
    assert_eq!(list.strict_lower_bound(70), 2);
    assert_eq!(list.strict_lower_bound(2000), 7);
}

#[test]
fn strict_bounds_meet_borders() {
    let list = knots();
    // where a bracket exists, the strict bounds coincide with the border ends
    for q in [5, 15, 70, 75, 99] {
        assert_eq!(list.strict_upper_bound(q), list.upper_border(q)[1]);
        assert_eq!(list.strict_lower_bound(q), list.lower_border(q)[0]);
    }
}

#[test]
fn factor_is_exact() {
    let list = knots();
    let f = list.factor(1, 2, 15);
    assert_eq!(f.num, 5);
    assert_eq!(f.den, 10);
    let triple = list.upper_border_with_factor(15);
    assert_eq!(triple.0, 1);
    assert_eq!(triple.1, 2);
    assert_eq!(triple.2.num, 5);
    assert_eq!(triple.2.den, 10);
}

#[test]
fn factor_denominator_degenerates_on_duplicates() {
    let arr: Vec<i64> = vec![0, 70, 70];
    let list = Sorted::new(NonEmpty::new(arr).unwrap()).unwrap();
    let (min, max, f) = list.upper_border_with_factor(70);
    assert_eq!([min, max], [1, 2]);
    assert_eq!(f.num, 0);
    assert_eq!(f.den, 0);
}

#[test]
fn single_element_bounds() {
    let list = Sorted::new(NonEmpty::new(vec![5]).unwrap()).unwrap();
    assert_eq!(list.lower_bound(3), 0);
    assert_eq!(list.lower_bound(5), 0);
    assert_eq!(list.lower_bound(7), 0);
    assert_eq!(list.upper_bound(3), 0);
    assert_eq!(list.upper_bound(5), 0);
    assert_eq!(list.upper_bound(7), 0);
}

#[test]
fn two_element_borders() {
    let list = Sorted::new(NonEmpty::new(vec![3, 9]).unwrap()).unwrap();
    for q in [-1, 3, 6, 9, 12] {
        assert_eq!(list.upper_border(q), [0, 1]);
        assert_eq!(list.lower_border(q), [0, 1]);
    }
}

#[test]
fn bounds_are_monotone_in_the_query() {
    let list = knots();
    let mut prev_lower: usize = 0;
    let mut prev_upper: usize = 0;
    for q in -110..=110 {
        let lower = list.lower_bound(q);
        let upper = list.upper_bound(q);
        assert!(prev_lower <= lower);
        assert!(prev_upper <= upper);
        prev_lower = lower;
        prev_upper = upper;
    }
}

#[test]
fn bound_order_on_single_matches() {
    let list = knots();
    // queries matching at most one knot keep lower_bound <= upper_bound
    for q in [0, 10, 15, 20, 80, 100] {
        assert!(list.lower_bound(q) <= list.upper_bound(q));
    }
    // a duplicate run equal to the query makes the bounds cross by design
    assert!(list.lower_bound(70) > list.upper_bound(70));
}

#[test]
fn borders_stay_adjacent_and_in_range() {
    let list = knots();
    for q in -110..=110 {
        let [a, b] = list.upper_border(q);
        assert_eq!(b, a + 1);
        assert!(b <= 7);
        let [c, d] = list.lower_border(q);
        assert_eq!(d, c + 1);
        assert!(d <= 7);
    }
}
