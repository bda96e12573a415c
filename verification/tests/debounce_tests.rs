use corgie::debounce::Debouncer;
use corgie::debounce::EventKind;
use corgie::debounce::KeyEvent;

fn matrix_1x1(v: bool) -> Vec<Vec<bool>> {
    vec![vec![v]]
}

fn feed(d: &mut Debouncer, samples: &[bool]) -> Vec<KeyEvent> {
    let mut all = Vec::new();
    for &s in samples {
        let evts = d.events(&matrix_1x1(s));
        all.extend(evts);
    }
    all
}

#[test]
fn noisy_input_settling_emits_one_press_after_threshold() {
    // Cell previously stable at 0; samples 1,0,1,0,1,1,1,1,1 with threshold 5:
    // exactly one press, emitted on the 5th consecutive 1 (the last sample).
    let mut d = Debouncer::new(1, 1, 5);
    let samples = [true, false, true, false, true, true, true, true];
    let early = feed(&mut d, &samples);
    assert!(early.is_empty());
    let last = d.events(&matrix_1x1(true));
    assert_eq!(last.len(), 1);
    assert_eq!(last[0], KeyEvent { row: 0, col: 0, kind: EventKind::Press });
}

#[test]
fn noise_shorter_than_threshold_emits_nothing() {
    let mut d = Debouncer::new(1, 1, 5);
    // Four scans of bounce, then the line settles back at 0: no event ever.
    let evts = feed(&mut d, &[true, true, true, true, false, false, false, false, false]);
    assert!(evts.is_empty());
}

#[test]
fn agreeing_sample_resets_the_count() {
    let mut d = Debouncer::new(1, 1, 3);
    // Two disagreeing scans, one agreeing, two disagreeing: still no event;
    // a third consecutive disagreeing scan then flips the cell.
    assert!(feed(&mut d, &[true, true, false, true, true]).is_empty());
    let evts = d.events(&matrix_1x1(true));
    assert_eq!(evts.len(), 1);
    assert_eq!(evts[0].kind, EventKind::Press);
}

#[test]
fn release_is_debounced_like_a_press() {
    let mut d = Debouncer::new(1, 1, 2);
    assert!(feed(&mut d, &[true]).is_empty());
    assert_eq!(feed(&mut d, &[true]).len(), 1);
    // Now stable at 1; two consecutive 0 samples emit one release.
    assert!(feed(&mut d, &[false]).is_empty());
    let evts = d.events(&matrix_1x1(false));
    assert_eq!(evts.len(), 1);
    assert_eq!(evts[0], KeyEvent { row: 0, col: 0, kind: EventKind::Release });
}

#[test]
fn events_come_row_major_one_per_cell() {
    let mut d = Debouncer::new(2, 2, 1);
    let raw = vec![vec![true, false], vec![true, true]];
    let evts = d.events(&raw);
    assert_eq!(evts.len(), 3);
    assert_eq!(evts[0], KeyEvent { row: 0, col: 0, kind: EventKind::Press });
    assert_eq!(evts[1], KeyEvent { row: 1, col: 0, kind: EventKind::Press });
    assert_eq!(evts[2], KeyEvent { row: 1, col: 1, kind: EventKind::Press });
    // The same sample again: everything already stable, nothing new.
    assert!(d.events(&raw).is_empty());
}
