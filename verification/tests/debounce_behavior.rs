use keypipe::debounce::{Debouncer, KeyEvent};

fn snap(bits: &[bool]) -> Vec<bool> {
    bits.to_vec()
}

#[test]
fn no_event_below_threshold() {
    let mut d = Debouncer::new(2, 3);
    // two agreeing scans are one short of the threshold of three
    assert!(d.events(&snap(&[true, false])).is_empty());
    assert!(d.events(&snap(&[true, false])).is_empty());
    // a glitch back to rest resets the counter
    assert!(d.events(&snap(&[false, false])).is_empty());
    assert!(d.events(&snap(&[true, false])).is_empty());
    assert!(d.events(&snap(&[true, false])).is_empty());
}

#[test]
fn event_after_threshold_scans() {
    let mut d = Debouncer::new(2, 3);
    assert!(d.events(&snap(&[true, false])).is_empty());
    assert!(d.events(&snap(&[true, false])).is_empty());
    let evs = d.events(&snap(&[true, false]));
    assert_eq!(evs, vec![KeyEvent::Press(0)]);
}

#[test]
fn stable_snapshot_is_idempotent() {
    let mut d = Debouncer::new(3, 2);
    assert!(d.events(&snap(&[true, false, false])).is_empty());
    let evs = d.events(&snap(&[true, false, false]));
    assert_eq!(evs, vec![KeyEvent::Press(0)]);
    // the snapshot now agrees with the confirmed state: no further events,
    // however often it is fed again
    for _ in 0..10 {
        assert!(d.events(&snap(&[true, false, false])).is_empty());
    }
}

#[test]
fn release_confirmed_like_press() {
    let mut d = Debouncer::new(1, 2);
    assert!(d.events(&snap(&[true])).is_empty());
    assert_eq!(d.events(&snap(&[true])), vec![KeyEvent::Press(0)]);
    assert!(d.events(&snap(&[false])).is_empty());
    assert_eq!(d.events(&snap(&[false])), vec![KeyEvent::Release(0)]);
}

#[test]
fn events_come_in_position_order() {
    let mut d = Debouncer::new(3, 1);
    let evs = d.events(&snap(&[true, false, true]));
    assert_eq!(evs, vec![KeyEvent::Press(0), KeyEvent::Press(2)]);
}

#[test]
fn one_transition_in_flight_per_position() {
    let mut d = Debouncer::new(1, 3);
    // bouncing below the threshold queues nothing: the counter restarts
    assert!(d.events(&snap(&[true])).is_empty());
    assert!(d.events(&snap(&[false])).is_empty());
    assert!(d.events(&snap(&[true])).is_empty());
    assert!(d.events(&snap(&[false])).is_empty());
    assert!(d.events(&snap(&[true])).is_empty());
    assert!(d.events(&snap(&[true])).is_empty());
    assert_eq!(d.events(&snap(&[true])), vec![KeyEvent::Press(0)]);
}
