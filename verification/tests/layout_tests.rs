use corgie::debounce::EventKind;
use corgie::debounce::KeyEvent;
use corgie::layout::Action;
use corgie::layout::Layout;
use corgie::report::Report;

fn press(row: usize, col: usize) -> KeyEvent {
    KeyEvent { row, col, kind: EventKind::Press }
}

fn release(row: usize, col: usize) -> KeyEvent {
    KeyEvent { row, col, kind: EventKind::Release }
}

/// A 3×3 base layer with keycodes 10..=18, row-major.
fn base_layer() -> Vec<Vec<Action>> {
    let mut layer = Vec::new();
    for r in 0..3u8 {
        let mut row = Vec::new();
        for c in 0..3u8 {
            row.push(Action::Key(10 + 3 * r + c));
        }
        layer.push(row);
    }
    layer
}

/// Base layer plus an overlay: the base holds layer 1 at (2, 2); the overlay
/// maps (0, 0) to keycode 40, leaves (0, 1) transparent, and is no-op
/// elsewhere.
fn two_layer_keymap() -> Vec<Vec<Vec<Action>>> {
    let mut base = base_layer();
    base[2][2] = Action::HoldLayer(1);
    let mut overlay = vec![vec![Action::NoOp; 3]; 3];
    overlay[0][0] = Action::Key(40);
    overlay[0][1] = Action::Transparent;
    vec![base, overlay]
}

#[test]
fn single_layer_press_and_release() {
    let mut l = Layout::new(vec![base_layer()], 3, 3).unwrap();
    l.event(press(0, 0));
    l.event(press(1, 2));
    assert_eq!(l.keycodes(), vec![10, 15]);
    l.event(release(0, 0));
    assert_eq!(l.keycodes(), vec![15]);
}

#[test]
fn keycode_cap_drops_beyond_six_and_promotes_on_release() {
    // Eight simultaneous presses: the report holds exactly the first six, in
    // press order; the other two stay tracked, and releasing one of the
    // visible six promotes the seventh into the next report.
    let mut l = Layout::new(vec![base_layer()], 3, 3).unwrap();
    let order = [(0, 0), (0, 1), (0, 2), (1, 0), (1, 1), (1, 2), (2, 0), (2, 1)];
    for &(r, c) in order.iter() {
        l.event(press(r, c));
    }
    let report = Report::build(&l.keycodes());
    assert_eq!(report.keycodes, [10, 11, 12, 13, 14, 15]);
    assert!(report.keycodes.iter().all(|&k| k != 0));
    // Keys 16 and 17 are held but not visible.
    assert_eq!(l.keycodes(), vec![10, 11, 12, 13, 14, 15, 16, 17]);
    l.event(release(0, 1));
    let promoted = Report::build(&l.keycodes());
    assert_eq!(promoted.keycodes, [10, 12, 13, 14, 15, 16]);
}

#[test]
fn overlay_action_wins_while_held() {
    let mut l = Layout::new(two_layer_keymap(), 3, 3).unwrap();
    l.event(press(2, 2));
    l.event(press(0, 0));
    assert_eq!(l.keycodes(), vec![40]);
}

#[test]
fn transparent_cell_falls_through_to_base() {
    let mut l = Layout::new(two_layer_keymap(), 3, 3).unwrap();
    l.event(press(2, 2));
    l.event(press(0, 1));
    // (0, 1) is transparent on the overlay: the base layer's keycode wins.
    assert_eq!(l.keycodes(), vec![11]);
    // (0, 0) is mapped on the overlay, for contrast.
    l.event(press(0, 0));
    assert_eq!(l.keycodes(), vec![11, 40]);
}

#[test]
fn noop_cell_on_overlay_masks_base() {
    let mut l = Layout::new(two_layer_keymap(), 3, 3).unwrap();
    l.event(press(2, 2));
    // (1, 1) is no-op on the overlay: nothing is emitted, no fall-through.
    l.event(press(1, 1));
    assert_eq!(l.keycodes(), Vec::<u8>::new());
}

#[test]
fn layer_release_works_by_identity_across_interleaved_keys() {
    let mut l = Layout::new(two_layer_keymap(), 3, 3).unwrap();
    l.event(press(2, 2));
    // Other keys pressed and released while the overlay is active.
    l.event(press(0, 0));
    l.event(press(0, 1));
    l.event(release(0, 0));
    assert_eq!(l.keycodes(), vec![11]);
    // Releasing the hold key still deactivates the overlay, though the
    // stack changed underneath it while it was held.
    l.event(release(2, 2));
    // The overlay is gone: (0, 0) now resolves to the base layer.
    l.event(press(0, 0));
    assert_eq!(l.keycodes(), vec![11, 10]);
    l.event(release(0, 1));
    l.event(release(0, 0));
    assert_eq!(l.keycodes(), Vec::<u8>::new());
}

#[test]
fn resolve_reports_the_active_action() {
    let mut l = Layout::new(two_layer_keymap(), 3, 3).unwrap();
    assert_eq!(l.resolve(0, 0), Action::Key(10));
    l.event(press(2, 2));
    assert_eq!(l.resolve(0, 0), Action::Key(40));
    assert_eq!(l.resolve(0, 1), Action::Key(11));
    assert_eq!(l.resolve(1, 1), Action::NoOp);
}

#[test]
fn invalid_keymaps_are_refused() {
    // No layers at all.
    assert!(Layout::new(Vec::new(), 3, 3).is_none());
    // Wrong grid shape.
    assert!(Layout::new(vec![vec![vec![Action::NoOp; 3]; 2]], 3, 3).is_none());
    // Keycode zero marks an empty slot and cannot be mapped.
    let mut zero_key = vec![base_layer()];
    zero_key[0][1][1] = Action::Key(0);
    assert!(Layout::new(zero_key, 3, 3).is_none());
    // A layer-hold must name an existing layer other than the base.
    let mut bad_hold = vec![base_layer()];
    bad_hold[0][0][0] = Action::HoldLayer(1);
    assert!(Layout::new(bad_hold, 3, 3).is_none());
    let mut base_hold = two_layer_keymap();
    base_hold[0][0][0] = Action::HoldLayer(0);
    assert!(Layout::new(base_hold, 3, 3).is_none());
}

#[test]
fn release_of_idle_position_is_ignored() {
    let mut l = Layout::new(vec![base_layer()], 3, 3).unwrap();
    l.event(release(1, 1));
    assert_eq!(l.keycodes(), Vec::<u8>::new());
    l.event(press(1, 1));
    assert_eq!(l.keycodes(), vec![14]);
}
