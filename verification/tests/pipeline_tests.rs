use corgie::debounce::Debouncer;
use corgie::layout::Action;
use corgie::layout::Layout;
use corgie::link::LinkState;
use corgie::link::Supervisor;
use corgie::link::TxDecision;
use corgie::link::UsbEvent;
use corgie::pipeline::Pipeline;

/// A 2×2 pipeline with keycodes 20..=23 and the given debounce threshold.
fn pipeline_2x2(threshold: u8) -> Pipeline {
    let layer = vec![
        vec![Action::Key(20), Action::Key(21)],
        vec![Action::Key(22), Action::Key(23)],
    ];
    let layout = Layout::new(vec![layer], 2, 2).unwrap();
    let debouncer = Debouncer::new(2, 2, threshold);
    Pipeline::new(debouncer, layout, Supervisor::new())
}

fn idle_2x2() -> Vec<Vec<bool>> {
    vec![vec![false, false], vec![false, false]]
}

fn key_00_down() -> Vec<Vec<bool>> {
    vec![vec![true, false], vec![false, false]]
}

#[test]
fn held_key_reaches_the_report_after_threshold_scans() {
    let mut p = pipeline_2x2(5);
    for _ in 0..4 {
        let (report, decision) = p.cycle(&key_00_down());
        assert_eq!(report.keycodes, [0; 6]);
        assert_eq!(decision, TxDecision::Transmit);
    }
    let (report, _) = p.cycle(&key_00_down());
    assert_eq!(report.keycodes, [20, 0, 0, 0, 0, 0]);
    // The key stays in the report while held.
    let (report, _) = p.cycle(&key_00_down());
    assert_eq!(report.keycodes, [20, 0, 0, 0, 0, 0]);
}

#[test]
fn suspend_gates_all_transmission() {
    let mut p = pipeline_2x2(1);
    p.usb_event(UsbEvent::Suspended(true));
    // No key activity: nothing is transmitted, nothing is signalled.
    let (_, decision) = p.cycle(&idle_2x2());
    assert_eq!(decision, TxDecision::Skip);
    // Key activity without a press (a release) does not wake the host.
    let mut q = pipeline_2x2(1);
    q.cycle(&key_00_down());
    q.usb_event(UsbEvent::Suspended(true));
    let (_, decision) = q.cycle(&idle_2x2());
    assert_eq!(decision, TxDecision::Skip);
}

#[test]
fn press_while_suspended_signals_exactly_one_wake() {
    let mut p = pipeline_2x2(1);
    p.usb_event(UsbEvent::Suspended(true));
    let (_, first) = p.cycle(&key_00_down());
    assert_eq!(first, TxDecision::SignalWake);
    // Further presses during the same suspension signal nothing more.
    let more = vec![vec![true, true], vec![true, false]];
    let (_, second) = p.cycle(&more);
    assert_eq!(second, TxDecision::Skip);
    let (_, third) = p.cycle(&idle_2x2());
    assert_eq!(third, TxDecision::Skip);
}

#[test]
fn transmission_resumes_only_after_the_transport_confirms() {
    let mut p = pipeline_2x2(1);
    p.usb_event(UsbEvent::Suspended(true));
    let (_, while_suspended) = p.cycle(&key_00_down());
    assert_eq!(while_suspended, TxDecision::SignalWake);
    p.usb_event(UsbEvent::Suspended(false));
    let (report, resumed) = p.cycle(&key_00_down());
    assert_eq!(resumed, TxDecision::Transmit);
    assert_eq!(report.keycodes, [20, 0, 0, 0, 0, 0]);
}

#[test]
fn a_new_suspension_allows_a_new_wake_signal() {
    let mut p = pipeline_2x2(1);
    p.usb_event(UsbEvent::Suspended(true));
    assert_eq!(p.cycle(&key_00_down()).1, TxDecision::SignalWake);
    p.usb_event(UsbEvent::Suspended(false));
    assert_eq!(p.cycle(&idle_2x2()).1, TxDecision::Transmit);
    p.usb_event(UsbEvent::Suspended(true));
    let again = vec![vec![false, true], vec![false, false]];
    assert_eq!(p.cycle(&again).1, TxDecision::SignalWake);
}

#[test]
fn supervisor_tracks_lifecycle_notifications() {
    let mut s = Supervisor::new();
    assert_eq!(s.link, LinkState::Active);
    assert!(!s.configured);
    s.on_event(UsbEvent::Addressed(9));
    assert!(!s.configured);
    s.on_event(UsbEvent::Configured(true));
    assert!(s.configured);
    s.on_event(UsbEvent::Suspended(true));
    assert_eq!(s.link, LinkState::Suspended);
    assert!(s.configured);
    s.on_event(UsbEvent::Reset);
    assert!(!s.configured);
    assert_eq!(s.link, LinkState::Suspended);
    s.on_event(UsbEvent::Suspended(false));
    assert_eq!(s.link, LinkState::Active);
    s.on_event(UsbEvent::Enabled(true));
    assert_eq!(s.link, LinkState::Active);
    assert!(!s.configured);
}

#[test]
fn a_full_press_release_cycle_through_the_pipeline() {
    let mut p = pipeline_2x2(2);
    p.cycle(&key_00_down());
    let (report, _) = p.cycle(&key_00_down());
    assert_eq!(report.keycodes, [20, 0, 0, 0, 0, 0]);
    p.cycle(&idle_2x2());
    let (report, _) = p.cycle(&idle_2x2());
    assert_eq!(report.keycodes, [0; 6]);
}
