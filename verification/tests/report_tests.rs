use corgie::report::Report;

#[test]
fn report_packs_first_six_keycodes_in_order() {
    let r = Report::build(&vec![5, 6, 7, 8, 9, 10, 11, 12]);
    assert_eq!(r.keycodes, [5, 6, 7, 8, 9, 10]);
    assert_eq!(r.modifier, 0);
    assert_eq!(r.reserved, 0);
    assert_eq!(r.leds, 0);
}

#[test]
fn report_zero_fills_missing_slots() {
    let r = Report::build(&vec![30, 31]);
    assert_eq!(r.keycodes, [30, 31, 0, 0, 0, 0]);
    let empty = Report::build(&Vec::new());
    assert_eq!(empty.keycodes, [0, 0, 0, 0, 0, 0]);
}

#[test]
fn build_is_deterministic() {
    let keys = vec![4, 5, 6];
    let r1 = Report::build(&keys);
    let r2 = Report::build(&keys);
    assert_eq!(r1, r2);
    let r3 = Report::build(&vec![4, 5, 6]);
    assert_eq!(r1, r3);
}
