use keypipe::action::{Action, HoldAction};
use keypipe::pipeline::Pipeline;
use keypipe::report::Report;
use keypipe::scan::snapshot_from_levels;

const KEY_A: u8 = 0x04;
const KEY_SPACE: u8 = 0x2C;
const KEY_F1: u8 = 0x3A;
const T: u16 = 5;

/// A one-row, two-column board: position 0 is Direct('A') on the base layer
/// and F1 on layer 1; position 1 is HoldTap(200, Layer(1), Space).
fn sample_pipeline() -> Pipeline {
    let table = vec![
        vec![
            Action::Direct(KEY_A),
            Action::HoldTap { timeout: 200, hold: HoldAction::Layer(1), tap: KEY_SPACE },
        ],
        vec![Action::Direct(KEY_F1), Action::Transparent],
    ];
    Pipeline::new(table, T).expect("well-formed table")
}

fn keys_of(reports: &[Report]) -> Vec<u8> {
    reports.last().expect("one report per tick at least").keys.clone()
}

/// Runs `ticks` scheduler periods with the same snapshot and returns the
/// last tick's reports.
fn run(p: &mut Pipeline, snapshot: &Vec<bool>, ticks: usize) -> Vec<Report> {
    let mut last = Vec::new();
    for _ in 0..ticks {
        last = p.run_tick(snapshot);
    }
    last
}

#[test]
fn matrix_at_rest_reports_nothing() {
    let mut p = sample_pipeline();
    let rest = vec![false, false];
    for _ in 0..(T as usize + 3) {
        for r in p.run_tick(&rest) {
            assert_eq!(r.modifiers, 0);
            assert!(r.keys.is_empty());
        }
    }
}

#[test]
fn direct_press_reaches_the_report() {
    let mut p = sample_pipeline();
    let pressed = vec![true, false];
    let rest = vec![false, false];
    let reports = run(&mut p, &pressed, T as usize);
    assert_eq!(keys_of(&reports), vec![KEY_A]);
    let reports = run(&mut p, &rest, T as usize);
    assert_eq!(keys_of(&reports), Vec::<u8>::new());
}

#[test]
fn hold_tap_short_press_taps_space() {
    let mut p = sample_pipeline();
    let pressed = vec![false, true];
    let rest = vec![false, false];
    // press debounces in, then 50 ticks of hold: inside the 200-tick window
    run(&mut p, &pressed, T as usize + 50);
    // the release debounces in: the tap fires for exactly one report
    let mut seen_space = false;
    for _ in 0..(T as usize + 2) {
        for r in p.run_tick(&rest) {
            if r.keys == vec![KEY_SPACE] {
                seen_space = true;
            }
        }
    }
    assert!(seen_space);
    assert_eq!(keys_of(&run(&mut p, &rest, 1)), Vec::<u8>::new());
}

#[test]
fn hold_tap_long_press_activates_layer() {
    let mut p = sample_pipeline();
    let ht_only = vec![false, true];
    let both = vec![true, true];
    let rest = vec![false, false];
    // hold past the 200-tick window: the hold meaning (layer 1) applies
    run(&mut p, &ht_only, T as usize + 250);
    // a second key now resolves through layer 1
    let reports = run(&mut p, &both, T as usize);
    assert_eq!(keys_of(&reports), vec![KEY_F1]);
    // no space was ever tapped, and everything releases cleanly
    let reports = run(&mut p, &rest, T as usize);
    assert_eq!(keys_of(&reports), Vec::<u8>::new());
}

#[test]
fn snapshot_is_active_low() {
    // one row driven, two columns read: a low level is a pressed switch
    let levels = vec![vec![false, true], vec![true, false]];
    assert_eq!(snapshot_from_levels(&levels, 2), vec![true, false, false, true]);
}

#[test]
fn pipeline_refuses_malformed_table() {
    assert!(Pipeline::new(vec![vec![Action::Transparent]], T).is_none());
}
