use keypipe::action::{Action, HoldAction};
use keypipe::debounce::KeyEvent;
use keypipe::layout::LayoutEngine;

const KEY_A: u8 = 0x04;
const KEY_B: u8 = 0x05;
const KEY_SPACE: u8 = 0x2C;
const KEY_F1: u8 = 0x3A;
const MOD_LSHIFT: u8 = 0xE1;

/// A 2x2 grid with two layers:
///   base:   [A,        Shift     ]
///           [HoldTap,  B         ]
///   layer1: [F1,       Transparent]
///           [Transparent, Transparent]
/// The hold-tap holds layer 1 and taps space, with a 200-tick window.
fn sample_table() -> Vec<Vec<Action>> {
    vec![
        vec![
            Action::Direct(KEY_A),
            Action::Direct(MOD_LSHIFT),
            Action::HoldTap { timeout: 200, hold: HoldAction::Layer(1), tap: KEY_SPACE },
            Action::Direct(KEY_B),
        ],
        vec![
            Action::Direct(KEY_F1),
            Action::Transparent,
            Action::Transparent,
            Action::Transparent,
        ],
    ]
}

fn engine() -> LayoutEngine {
    LayoutEngine::new(sample_table()).expect("well-formed table")
}

#[test]
fn direct_press_and_release() {
    let mut e = engine();
    assert_eq!(e.event(KeyEvent::Press(0)), vec![KEY_A]);
    assert_eq!(e.event(KeyEvent::Press(3)), vec![KEY_A, KEY_B]);
    assert_eq!(e.event(KeyEvent::Release(0)), vec![KEY_B]);
    assert_eq!(e.event(KeyEvent::Release(3)), Vec::<u8>::new());
}

#[test]
fn transparent_falls_back_to_base_layer() {
    let mut e = engine();
    // hold the hold-tap past its window so layer 1 becomes active
    e.event(KeyEvent::Press(2));
    for _ in 0..200 {
        e.tick();
    }
    // position 0 resolves through layer 1 to F1, position 1 falls through
    // layer 1's transparent cell to the base layer's shift
    assert!(matches!(e.resolve_at(0), Action::Direct(k) if k == KEY_F1));
    assert!(matches!(e.resolve_at(1), Action::Direct(k) if k == MOD_LSHIFT));
}

#[test]
fn hold_tap_released_early_taps() {
    let mut e = engine();
    assert_eq!(e.event(KeyEvent::Press(2)), Vec::<u8>::new());
    for _ in 0..50 {
        assert_eq!(e.tick(), Vec::<u8>::new());
    }
    // release before the 200-tick window: a press of space...
    assert_eq!(e.event(KeyEvent::Release(2)), vec![KEY_SPACE]);
    // ...released again by the next tick
    assert_eq!(e.tick(), Vec::<u8>::new());
}

#[test]
fn hold_tap_timeout_holds_layer() {
    let mut e = engine();
    e.event(KeyEvent::Press(2));
    for _ in 0..199 {
        assert_eq!(e.tick(), Vec::<u8>::new());
    }
    // the 200th tick reaches the window: the hold meaning (layer 1) applies
    assert_eq!(e.tick(), Vec::<u8>::new());
    // a second key now resolves through layer 1
    assert_eq!(e.event(KeyEvent::Press(0)), vec![KEY_F1]);
    assert_eq!(e.event(KeyEvent::Release(0)), Vec::<u8>::new());
    // the layer is only released by the physical release
    assert!(matches!(e.resolve_at(0), Action::Direct(k) if k == KEY_F1));
    e.event(KeyEvent::Release(2));
    assert!(matches!(e.resolve_at(0), Action::Direct(k) if k == KEY_A));
}

#[test]
fn interrupting_key_resolves_hold_at_once() {
    let mut e = engine();
    e.event(KeyEvent::Press(2));
    e.tick();
    // another key event inside the window: hold wins immediately, and the
    // new key already resolves through the held layer
    assert_eq!(e.event(KeyEvent::Press(0)), vec![KEY_F1]);
}

#[test]
fn no_tap_after_interrupted_hold() {
    let mut e = engine();
    e.event(KeyEvent::Press(2));
    e.event(KeyEvent::Press(0));
    e.event(KeyEvent::Release(0));
    // the hold-tap already resolved to hold: its release emits no space
    assert_eq!(e.event(KeyEvent::Release(2)), Vec::<u8>::new());
    assert_eq!(e.tick(), Vec::<u8>::new());
}

#[test]
fn duplicate_codes_held_once() {
    let table = vec![vec![Action::Direct(KEY_A), Action::Direct(KEY_A)]];
    let mut e = LayoutEngine::new(table).expect("well-formed table");
    e.event(KeyEvent::Press(0));
    assert_eq!(e.event(KeyEvent::Press(1)), vec![KEY_A]);
    // one of the two positions released: the other still asserts the code
    assert_eq!(e.event(KeyEvent::Release(0)), vec![KEY_A]);
    assert_eq!(e.event(KeyEvent::Release(1)), Vec::<u8>::new());
}

#[test]
fn malformed_tables_are_refused() {
    // transparent on the base layer
    assert!(LayoutEngine::new(vec![vec![Action::Transparent]]).is_none());
    // no layers at all
    assert!(LayoutEngine::new(Vec::new()).is_none());
    // ragged layers
    assert!(
        LayoutEngine::new(
            vec![vec![Action::Direct(KEY_A), Action::Direct(KEY_B)], vec![Action::Transparent]],
        ).is_none()
    );
    // a layer reference beyond the table
    assert!(LayoutEngine::new(vec![vec![Action::LayerToggle(7)]]).is_none());
    // a zero key code
    assert!(LayoutEngine::new(vec![vec![Action::Direct(0)]]).is_none());
    // a hold-tap without a window
    assert!(
        LayoutEngine::new(
            vec![vec![Action::HoldTap { timeout: 0, hold: HoldAction::Key(KEY_A), tap: KEY_B }]],
        ).is_none()
    );
}

#[test]
fn layer_toggle_press_and_release() {
    let table = vec![
        vec![Action::LayerToggle(1), Action::Direct(KEY_A)],
        vec![Action::Transparent, Action::Direct(KEY_B)],
    ];
    let mut e = LayoutEngine::new(table).expect("well-formed table");
    e.event(KeyEvent::Press(0));
    assert_eq!(e.event(KeyEvent::Press(1)), vec![KEY_B]);
    e.event(KeyEvent::Release(1));
    e.event(KeyEvent::Release(0));
    assert_eq!(e.event(KeyEvent::Press(1)), vec![KEY_A]);
}
