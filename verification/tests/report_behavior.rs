use keypipe::report::{build_report, report_eq, Report};

const KEY_A: u8 = 0x04;
const MOD_LCTRL: u8 = 0xE0;
const MOD_LSHIFT: u8 = 0xE1;
const MOD_RGUI: u8 = 0xE7;

#[test]
fn modifiers_become_mask_bits() {
    let r = build_report(&vec![MOD_LCTRL, KEY_A, MOD_LSHIFT, MOD_RGUI]);
    assert_eq!(r.modifiers, 0b1000_0011);
    assert_eq!(r.keys, vec![KEY_A]);
}

#[test]
fn keys_keep_held_order() {
    let r = build_report(&vec![9, 5, 7]);
    assert_eq!(r.modifiers, 0);
    assert_eq!(r.keys, vec![9, 5, 7]);
}

#[test]
fn excess_keys_are_truncated() {
    // eight non-modifier codes held at once: only the first six fit
    let r = build_report(&vec![4, 5, 6, 7, 8, 9, 10, 11]);
    assert_eq!(r.keys, vec![4, 5, 6, 7, 8, 9]);
    assert_eq!(r.keys.len(), 6);
    // truncation loses no modifier
    let r2 = build_report(&vec![4, 5, 6, 7, 8, 9, 10, MOD_LSHIFT]);
    assert_eq!(r2.keys, vec![4, 5, 6, 7, 8, 9]);
    assert_eq!(r2.modifiers, 0b0000_0010);
}

#[test]
fn wire_bytes_are_padded() {
    let r = build_report(&vec![MOD_LSHIFT, KEY_A]);
    assert_eq!(r.to_bytes(), vec![0b0000_0010, 0, KEY_A, 0, 0, 0, 0, 0]);
    let empty = build_report(&Vec::new());
    assert_eq!(empty.to_bytes(), vec![0, 0, 0, 0, 0, 0, 0, 0]);
}

#[test]
fn report_equality_is_by_payload() {
    let a = build_report(&vec![KEY_A]);
    let b = Report { modifiers: 0, keys: vec![KEY_A] };
    let c = build_report(&vec![MOD_LCTRL, KEY_A]);
    assert!(report_eq(&a, &b));
    assert!(!report_eq(&a, &c));
}
