//! The action vocabulary of the layout table and the per-position runtime
//! state of the layout engine.

use vstd::prelude::*;

verus! {

/// What a hold-tap action does once it resolves to its hold meaning:
/// hold an ordinary key, or keep a layer active.
#[derive(Clone, Copy, PartialEq, Eq, Structural, Debug)]
pub enum HoldAction {
    Key(u8),
    Layer(u8),
}

/// One cell of the layout table.
///
/// `Direct` presses and releases a key code; `Transparent` defers to the next
/// active layer below; `LayerToggle` keeps a layer active while the position
/// is held; `HoldTap` resolves by timing into its hold or its tap meaning.
#[derive(Clone, Copy, PartialEq, Eq, Structural, Debug)]
pub enum Action {
    Transparent,
    Direct(u8),
    LayerToggle(u8),
    HoldTap { timeout: u16, hold: HoldAction, tap: u8 },
}

/// Runtime state of one matrix position inside the layout engine.
///
/// `Idle`: not pressed. `HeldKey`: pressed, asserting a key code.
/// `HeldLayer`: pressed, keeping a layer active. `HeldNone`: pressed with
/// nothing left to undo (its layer was already active). `Pending`: a
/// hold-tap press whose timing is not yet decided. `TapCycle`: a hold-tap
/// that resolved to its tap; the tap key is asserted until the next tick.
#[derive(Clone, Copy, PartialEq, Eq, Structural, Debug)]
pub enum PosState {
    Idle,
    HeldKey(u8),
    HeldLayer(u8),
    HeldNone,
    Pending { elapsed: u16, timeout: u16, hold: HoldAction, tap: u8 },
    TapCycle(u8),
}

/// Whether the position is physically held down in this state.
pub open spec fn engaged(s: PosState) -> bool {
    match s {
        PosState::Idle => false,
        PosState::TapCycle(_) => false,
        _ => true,
    }
}

/// Whether the state contributes key code `k` to the held-set.
pub open spec fn asserts_key(s: PosState, k: u8) -> bool {
    match s {
        PosState::HeldKey(k2) => k2 == k,
        PosState::TapCycle(k2) => k2 == k,
        _ => false,
    }
}

/// Well-formedness of a hold meaning against the number of layers.
pub open spec fn hold_wf(h: HoldAction, n_layers: int) -> bool {
    match h {
        HoldAction::Key(k) => k != 0,
        HoldAction::Layer(l) => (l as int) < n_layers,
    }
}

/// Well-formedness of one table cell: key codes are non-zero, layer
/// references stay inside the table, and hold-tap windows are positive.
pub open spec fn action_wf(a: Action, n_layers: int) -> bool {
    match a {
        Action::Transparent => true,
        Action::Direct(k) => k != 0,
        Action::LayerToggle(l) => (l as int) < n_layers,
        Action::HoldTap { timeout, hold, tap } => timeout >= 1 && tap != 0 && hold_wf(
            hold,
            n_layers,
        ),
    }
}

/// Well-formedness of a per-position state: a pending timer has not yet
/// reached its window, and a held layer is a real, removable layer.
pub open spec fn state_wf(s: PosState, n_layers: int) -> bool {
    match s {
        PosState::Pending { elapsed, timeout, hold, tap } => elapsed < timeout && tap != 0
            && hold_wf(hold, n_layers),
        PosState::HeldLayer(l) => 0 < l && (l as int) < n_layers,
        _ => true,
    }
}

} // verus!
