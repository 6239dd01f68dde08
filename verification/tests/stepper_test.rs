use enterpolation::Stepper;

#[test]
fn stepper() {
    let mut stepper = Stepper::new(11);
    let res = vec![0, 1, 2, 3, 4, 5, 6, 7, 8, 9, 10];
    for i in 0..=10 {
        let val = stepper.next().unwrap();
        assert_eq!(val.num, res[i]);
        assert_eq!(val.den, 10);
    }
}

#[test]
fn stepper_exhausts() {
    let mut stepper = Stepper::new(2);
    assert_eq!(stepper.next().map(|f| (f.num, f.den)), Some((0, 1)));
    assert_eq!(stepper.next().map(|f| (f.num, f.den)), Some((1, 1)));
    assert!(stepper.next().is_none());
    assert!(stepper.next().is_none());
}

#[test]
fn stepper_single_step() {
    // one step: the single position 0 / 0, the degenerate denominator
    let mut stepper = Stepper::new(1);
    let val = stepper.next().unwrap();
    assert_eq!(val.num, 0);
    assert_eq!(val.den, 0);
    assert!(stepper.next().is_none());
}
