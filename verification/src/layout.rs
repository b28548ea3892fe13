//! The layout engine: an immutable layered action table, the stack of active
//! layers, and per-position hold-tap state. Events from the debouncer and
//! periodic ticks drive it; each entry point returns the full updated
//! held-set of key codes.

use vstd::prelude::*;
use vstd::pervasive::VecAdditionalExecFns;
use crate::action::{Action, HoldAction, PosState, action_wf, asserts_key, engaged, state_wf};
use crate::debounce::KeyEvent;

verus! {

/// Well-formedness of the layout table: at least one layer, every layer the
/// same size, every cell well formed, and the base layer total (never
/// transparent), so that resolution is defined for every position.
pub open spec fn table_wf(table: Seq<Seq<Action>>) -> bool {
    &&& 1 <= table.len() <= 256
    &&& forall|l: int| 0 <= l < table.len() ==> #[trigger] table[l].len() == table[0].len()
    &&& forall|l: int, p: int|
        0 <= l < table.len() && 0 <= p < table[l].len() ==> action_wf(
            #[trigger] table[l][p],
            table.len() as int,
        )
    &&& forall|p: int| 0 <= p < table[0].len() ==> #[trigger] table[0][p] != Action::Transparent
}

/// Well-formedness of the layer stack: the base layer sits at the bottom,
/// permanently; every entry is a real layer; no layer appears twice.
pub open spec fn stack_wf(stack: Seq<u8>, n_layers: int) -> bool {
    &&& stack.len() >= 1
    &&& stack[0] == 0u8
    &&& forall|i: int| 0 <= i < stack.len() ==> (#[trigger] stack[i] as int) < n_layers
    &&& forall|i: int, j: int| 0 <= i < j < stack.len() ==> stack[i] != stack[j]
}

/// Resolution of a position against a layer stack: walk the active layers
/// from topmost down and take the first action that is not transparent.
pub open spec fn resolve_in(table: Seq<Seq<Action>>, stack: Seq<u8>, p: int) -> Action
    decreases stack.len(),
{
    if stack.len() == 0 {
        Action::Transparent
    } else {
        let a = table[stack.last() as int][p];
        if a == Action::Transparent {
            resolve_in(table, stack.drop_last(), p)
        } else {
            a
        }
    }
}

/// A transparent cell on the topmost active layer defers resolution to the
/// rest of the stack below it.
pub proof fn lemma_transparent_falls_through(table: Seq<Seq<Action>>, stack: Seq<u8>, p: int)
    requires
        stack.len() >= 1,
        table[stack.last() as int][p] == Action::Transparent,
    ensures
        resolve_in(table, stack, p) == resolve_in(table, stack.drop_last(), p),
{
}

/// Under a well-formed table and stack, resolution never comes out
/// transparent: the base layer catches every position.
pub proof fn lemma_resolve_not_transparent(table: Seq<Seq<Action>>, stack: Seq<u8>, p: int)
    requires
        table_wf(table),
        stack.len() >= 1,
        stack[0] == 0u8,
        forall|i: int| 0 <= i < stack.len() ==> (#[trigger] stack[i] as int) < table.len(),
        0 <= p < table[0].len(),
    ensures
        resolve_in(table, stack, p) != Action::Transparent,
    decreases stack.len(),
{
    if table[stack.last() as int][p] == Action::Transparent {
        assert(stack.len() > 1) by {
            if stack.len() == 1 {
                assert(stack.last() == stack[0]);
            }
        }
        lemma_resolve_not_transparent(table, stack.drop_last(), p);
    }
}

/// What resolution returns is a cell of the table, hence well formed.
pub proof fn lemma_resolve_wf(table: Seq<Seq<Action>>, stack: Seq<u8>, p: int)
    requires
        table_wf(table),
        forall|i: int| 0 <= i < stack.len() ==> (#[trigger] stack[i] as int) < table.len(),
        0 <= p < table[0].len(),
    ensures
        action_wf(resolve_in(table, stack, p), table.len() as int),
    decreases stack.len(),
{
    if stack.len() != 0 {
        if table[stack.last() as int][p] == Action::Transparent {
            lemma_resolve_wf(table, stack.drop_last(), p);
        }
    }
}

/// Applying the hold meaning of a hold-tap: hold a key, or push the layer
/// unless it is already active (then there is nothing to undo).
pub open spec fn apply_hold(stack: Seq<u8>, h: HoldAction) -> (Seq<u8>, PosState) {
    match h {
        HoldAction::Key(k) => (stack, PosState::HeldKey(k)),
        HoldAction::Layer(l) => if stack.contains(l) {
            (stack, PosState::HeldNone)
        } else {
            (stack.push(l), PosState::HeldLayer(l))
        },
    }
}

/// Settling of pending hold-taps at positions below `n`, except at `skip`:
/// any other key event while a timer is pending resolves it to its hold
/// meaning at once, in position order.
pub open spec fn settle_upto(states: Seq<PosState>, stack: Seq<u8>, skip: int, n: int) -> (
    Seq<PosState>,
    Seq<u8>,
)
    decreases n,
{
    if n <= 0 {
        (states, stack)
    } else {
        let r = settle_upto(states, stack, skip, n - 1);
        let i = n - 1;
        match r.0[i] {
            PosState::Pending { elapsed, timeout, hold, tap } => {
                if i == skip {
                    r
                } else {
                    let ah = apply_hold(r.1, hold);
                    (r.0.update(i, ah.1), ah.0)
                }
            },
            _ => r,
        }
    }
}

/// Settling of every pending hold-tap except the one at `skip`.
pub open spec fn settle_all(states: Seq<PosState>, stack: Seq<u8>, skip: int) -> (
    Seq<PosState>,
    Seq<u8>,
) {
    settle_upto(states, stack, skip, states.len() as int)
}

/// Settling keeps the length and touches no position at or beyond `n`,
/// nor the skipped one.
pub proof fn lemma_settle_frame(states: Seq<PosState>, stack: Seq<u8>, skip: int, n: int)
    requires
        n <= states.len(),
    ensures
        settle_upto(states, stack, skip, n).0.len() == states.len(),
        forall|j: int|
            n <= j < states.len() ==> settle_upto(states, stack, skip, n).0[j] == states[j],
        0 <= skip < states.len() ==> settle_upto(states, stack, skip, n).0[skip] == states[skip],
    decreases n,
{
    if n > 0 {
        lemma_settle_frame(states, stack, skip, n - 1);
    }
}

/// Settling leaves each position alone, or turns a pending hold-tap into an
/// engaged, no longer pending state.
pub proof fn lemma_settle_effect(states: Seq<PosState>, stack: Seq<u8>, skip: int, n: int)
    requires
        n <= states.len(),
    ensures
        forall|q: int|
            0 <= q < states.len() ==> (#[trigger] settle_upto(states, stack, skip, n).0[q]
                == states[q] || (states[q] is Pending && engaged(
                settle_upto(states, stack, skip, n).0[q],
            ) && !(settle_upto(states, stack, skip, n).0[q] is Pending) && !(settle_upto(
                states,
                stack,
                skip,
                n,
            ).0[q] is TapCycle))),
    decreases n,
{
    if n > 0 {
        lemma_settle_effect(states, stack, skip, n - 1);
        lemma_settle_frame(states, stack, skip, n - 1);
    }
}

/// A tick never leaves a tap cycle behind and never changes whether a
/// position is engaged.
pub proof fn lemma_tick_effect(states: Seq<PosState>, stack: Seq<u8>, n: int)
    requires
        n <= states.len(),
    ensures
        forall|q: int|
            0 <= q < states.len() ==> engaged(#[trigger] tick_upto(states, stack, n).0[q])
                == engaged(states[q]),
        forall|q: int| 0 <= q < n ==> !((#[trigger] tick_upto(states, stack, n).0[q]) is TapCycle),
    decreases n,
{
    if n > 0 {
        lemma_tick_effect(states, stack, n - 1);
        lemma_tick_frame(states, stack, n - 1);
    }
}

/// The outcome of a press, once its action is resolved.
pub open spec fn press_result(stack: Seq<u8>, a: Action) -> (Seq<u8>, PosState) {
    match a {
        Action::Transparent => (stack, PosState::HeldNone),
        Action::Direct(k) => (stack, PosState::HeldKey(k)),
        Action::LayerToggle(l) => if stack.contains(l) {
            (stack, PosState::HeldNone)
        } else {
            (stack.push(l), PosState::HeldLayer(l))
        },
        Action::HoldTap { timeout, hold, tap } => (
            stack,
            PosState::Pending { elapsed: 0u16, timeout, hold, tap },
        ),
    }
}

/// Removing a held layer from the stack by identity, wherever it sits.
pub open spec fn remove_layer(stack: Seq<u8>, l: u8) -> Seq<u8> {
    stack.remove_value(l)
}

/// One confirmed key event: settle every other pending hold-tap to its hold
/// meaning, then apply the event's own action at its position.
pub open spec fn step_event(
    table: Seq<Seq<Action>>,
    states: Seq<PosState>,
    stack: Seq<u8>,
    ev: KeyEvent,
) -> (Seq<PosState>, Seq<u8>) {
    let p = ev.pos();
    let r = settle_all(states, stack, p);
    match ev {
        KeyEvent::Press(_) => {
            let a = resolve_in(table, r.1, p);
            let pr = press_result(r.1, a);
            (r.0.update(p, pr.1), pr.0)
        },
        KeyEvent::Release(_) => match r.0[p] {
            PosState::HeldKey(_) => (r.0.update(p, PosState::Idle), r.1),
            PosState::HeldNone => (r.0.update(p, PosState::Idle), r.1),
            PosState::HeldLayer(l) => (r.0.update(p, PosState::Idle), remove_layer(r.1, l)),
            PosState::Pending { elapsed, timeout, hold, tap } => (
                r.0.update(p, PosState::TapCycle(tap)),
                r.1,
            ),
            _ => r,
        },
    }
}

/// One tick at positions below `n`: advance every pending timer by one
/// period, resolving to the hold meaning when the window is reached, and
/// finish every tap cycle, in position order.
pub open spec fn tick_upto(states: Seq<PosState>, stack: Seq<u8>, n: int) -> (
    Seq<PosState>,
    Seq<u8>,
)
    decreases n,
{
    if n <= 0 {
        (states, stack)
    } else {
        let r = tick_upto(states, stack, n - 1);
        let i = n - 1;
        match r.0[i] {
            PosState::Pending { elapsed, timeout, hold, tap } => {
                if elapsed + 1 >= timeout {
                    let ah = apply_hold(r.1, hold);
                    (r.0.update(i, ah.1), ah.0)
                } else {
                    (
                        r.0.update(
                            i,
                            PosState::Pending {
                                elapsed: (elapsed + 1) as u16,
                                timeout,
                                hold,
                                tap,
                            },
                        ),
                        r.1,
                    )
                }
            },
            PosState::TapCycle(_) => (r.0.update(i, PosState::Idle), r.1),
            _ => r,
        }
    }
}

/// One scheduler tick over every position.
pub open spec fn step_tick(states: Seq<PosState>, stack: Seq<u8>) -> (Seq<PosState>, Seq<u8>) {
    tick_upto(states, stack, states.len() as int)
}

/// A tick keeps the length and touches no position at or beyond `n`.
pub proof fn lemma_tick_frame(states: Seq<PosState>, stack: Seq<u8>, n: int)
    requires
        n <= states.len(),
    ensures
        tick_upto(states, stack, n).0.len() == states.len(),
        forall|j: int| n <= j < states.len() ==> tick_upto(states, stack, n).0[j] == states[j],
    decreases n,
{
    if n > 0 {
        lemma_tick_frame(states, stack, n - 1);
    }
}

/// The held-set of a state vector: every asserted key code in position
/// order, without duplicates.
pub open spec fn held_of(states: Seq<PosState>) -> Seq<u8>
    decreases states.len(),
{
    if states.len() == 0 {
        Seq::empty()
    } else {
        let rest = held_of(states.drop_last());
        match states.last() {
            PosState::HeldKey(k) => if rest.contains(k) {
                rest
            } else {
                rest.push(k)
            },
            PosState::TapCycle(k) => if rest.contains(k) {
                rest
            } else {
                rest.push(k)
            },
            _ => rest,
        }
    }
}

/// The held-set never contains a key code twice.
pub proof fn lemma_held_no_dup(states: Seq<PosState>)
    ensures
        forall|i: int, j: int|
            0 <= i < j < held_of(states).len() ==> held_of(states)[i] != held_of(states)[j],
    decreases states.len(),
{
    if states.len() != 0 {
        lemma_held_no_dup(states.drop_last());
        let rest = held_of(states.drop_last());
        assert forall|i: int, j: int|
            0 <= i < j < held_of(states).len() implies held_of(states)[i] != held_of(
            states,
        )[j] by {
            if j < rest.len() {
            } else {
                assert(!rest.contains(held_of(states)[j]));
            }
        }
    }
}

/// A key code is held exactly when some position asserts it.
pub proof fn lemma_held_contains(states: Seq<PosState>, k: u8)
    ensures
        held_of(states).contains(k) <==> exists|p: int|
            0 <= p < states.len() && asserts_key(#[trigger] states[p], k),
    decreases states.len(),
{
    if states.len() == 0 {
    } else {
        lemma_held_contains(states.drop_last(), k);
        let rest = held_of(states.drop_last());
        let n = states.len() as int;
        if held_of(states).contains(k) {
            if rest.contains(k) {
                let p = choose|p: int|
                    0 <= p < states.drop_last().len() && asserts_key(
                        #[trigger] states.drop_last()[p],
                        k,
                    );
                assert(asserts_key(states[p], k));
            } else {
                let i = choose|i: int| 0 <= i < held_of(states).len() && held_of(states)[i] == k;
                assert(asserts_key(states[n - 1], k));
            }
        }
        if exists|p: int| 0 <= p < states.len() && asserts_key(#[trigger] states[p], k) {
            let p = choose|p: int| 0 <= p < states.len() && asserts_key(#[trigger] states[p], k);
            if p < n - 1 {
                assert(asserts_key(states.drop_last()[p], k));
                assert(rest.contains(k));
                if !held_of(states).contains(k) {
                    let i = choose|i: int| 0 <= i < rest.len() && rest[i] == k;
                    assert(held_of(states)[i] == k);
                }
            } else {
                if !rest.contains(k) {
                    assert(held_of(states).last() == k);
                } else {
                    let i = choose|i: int| 0 <= i < rest.len() && rest[i] == k;
                    assert(held_of(states)[i] == k);
                }
            }
        }
    }
}

/// If no position below `n` other than `skip` is pending, settling there
/// changes nothing.
pub proof fn lemma_settle_inert(states: Seq<PosState>, stack: Seq<u8>, skip: int, n: int)
    requires
        n <= states.len(),
        forall|q: int| 0 <= q < n && q != skip ==> !(#[trigger] states[q] is Pending),
    ensures
        settle_upto(states, stack, skip, n) == (states, stack),
    decreases n,
{
    if n > 0 {
        lemma_settle_inert(states, stack, skip, n - 1);
    }
}

/// A key event at one position, while exactly one other position has a
/// pending hold-tap, resolves that hold-tap to its hold meaning at once.
pub proof fn lemma_interrupt_resolves_hold(
    states: Seq<PosState>,
    stack: Seq<u8>,
    skip: int,
    p: int,
    h: HoldAction,
)
    requires
        0 <= p < states.len(),
        p != skip,
        states[p] matches PosState::Pending { hold, .. } && hold == h,
        forall|q: int| 0 <= q < states.len() && q != p && q != skip ==> !(#[trigger] states[q] is Pending),
    ensures
        settle_all(states, stack, skip) == (
            states.update(p, apply_hold(stack, h).1),
            apply_hold(stack, h).0,
        ),
{
    lemma_settle_single_upto(states, stack, skip, p, h, states.len() as int);
}

proof fn lemma_settle_single_upto(
    states: Seq<PosState>,
    stack: Seq<u8>,
    skip: int,
    p: int,
    h: HoldAction,
    n: int,
)
    requires
        0 <= p < states.len(),
        n <= states.len(),
        p != skip,
        states[p] matches PosState::Pending { hold, .. } && hold == h,
        forall|q: int| 0 <= q < states.len() && q != p && q != skip ==> !(#[trigger] states[q] is Pending),
    ensures
        n <= p ==> settle_upto(states, stack, skip, n) == (states, stack),
        n > p ==> settle_upto(states, stack, skip, n) == (
            states.update(p, apply_hold(stack, h).1),
            apply_hold(stack, h).0,
        ),
    decreases n,
{
    if n > 0 {
        lemma_settle_single_upto(states, stack, skip, p, h, n - 1);
        if n - 1 > p {
            assert(settle_upto(states, stack, skip, n - 1).0[n - 1] == states[n - 1]);
        }
    }
}

/// The outcome of one tick when only position `p` is live (pending or in a
/// tap cycle).
pub open spec fn tick_one(states: Seq<PosState>, stack: Seq<u8>, p: int) -> (
    Seq<PosState>,
    Seq<u8>,
) {
    match states[p] {
        PosState::Pending { elapsed, timeout, hold, tap } => {
            if elapsed + 1 >= timeout {
                let ah = apply_hold(stack, hold);
                (states.update(p, ah.1), ah.0)
            } else {
                (
                    states.update(
                        p,
                        PosState::Pending { elapsed: (elapsed + 1) as u16, timeout, hold, tap },
                    ),
                    stack,
                )
            }
        },
        PosState::TapCycle(_) => (states.update(p, PosState::Idle), stack),
        _ => (states, stack),
    }
}

/// If every position but `p` is neither pending nor in a tap cycle, a tick
/// acts at `p` alone.
pub proof fn lemma_tick_single(states: Seq<PosState>, stack: Seq<u8>, p: int)
    requires
        0 <= p < states.len(),
        forall|q: int|
            0 <= q < states.len() && q != p ==> !(#[trigger] states[q] is Pending) && !(states[q]
                is TapCycle),
    ensures
        step_tick(states, stack) == tick_one(states, stack, p),
{
    lemma_tick_single_upto(states, stack, p, states.len() as int);
}

proof fn lemma_tick_single_upto(states: Seq<PosState>, stack: Seq<u8>, p: int, n: int)
    requires
        0 <= p < states.len(),
        n <= states.len(),
        forall|q: int|
            0 <= q < states.len() && q != p ==> !(#[trigger] states[q] is Pending) && !(states[q]
                is TapCycle),
    ensures
        n <= p ==> tick_upto(states, stack, n) == (states, stack),
        n > p ==> tick_upto(states, stack, n) == tick_one(states, stack, p),
    decreases n,
{
    if n > 0 {
        lemma_tick_single_upto(states, stack, p, n - 1);
        if n - 1 > p {
            assert(tick_upto(states, stack, n - 1).0[n - 1] == states[n - 1]);
        }
    }
}

/// Hold-tap resolved by an early release: the release is the tap. The tap
/// key is pressed at the release (and nothing else changes: no hold meaning
/// is applied, the stack stays), and the following tick releases it again.
pub proof fn lemma_hold_tap_tap(
    table: Seq<Seq<Action>>,
    states: Seq<PosState>,
    stack: Seq<u8>,
    p: usize,
    tapk: u8,
)
    requires
        (p as int) < states.len(),
        states[p as int] matches PosState::Pending { elapsed, timeout, tap, .. } && tap == tapk
            && elapsed < timeout,
        forall|q: int|
            0 <= q < states.len() && q != p ==> !(#[trigger] states[q] is Pending) && !(states[q]
                is TapCycle),
    ensures
        step_event(table, states, stack, KeyEvent::Release(p)) == (
            states.update(p as int, PosState::TapCycle(tapk)),
            stack,
        ),
        held_of(states.update(p as int, PosState::TapCycle(tapk))).contains(tapk),
        step_tick(states.update(p as int, PosState::TapCycle(tapk)), stack) == (
            states.update(p as int, PosState::Idle),
            stack,
        ),
        (forall|q: int|
            0 <= q < states.len() && q != p ==> !asserts_key(#[trigger] states[q], tapk))
            ==> !held_of(states.update(p as int, PosState::Idle)).contains(tapk),
{
    let pi = p as int;
    let ev = KeyEvent::Release(p);
    assert(ev.pos() == pi);
    lemma_settle_inert(states, stack, pi, states.len() as int);
    let after = states.update(pi, PosState::TapCycle(tapk));
    lemma_held_contains(after, tapk);
    assert(asserts_key(after[pi], tapk));
    lemma_tick_single(after, stack, pi);
    assert(after.update(pi, PosState::Idle) =~= states.update(pi, PosState::Idle));
    let idle = states.update(pi, PosState::Idle);
    lemma_held_contains(idle, tapk);
    if forall|q: int|
        0 <= q < states.len() && q != p ==> !asserts_key(#[trigger] states[q], tapk) {
        assert forall|q: int| 0 <= q < idle.len() implies !asserts_key(
            #[trigger] idle[q],
            tapk,
        ) by {
            if q != pi {
                assert(idle[q] == states[q]);
            }
        }
    }
}

/// Hold-tap resolved by its timer: the tick that reaches the window applies
/// the hold meaning — a held key enters the held-set, a held layer becomes
/// active — and the hold is only undone by the physical release.
pub proof fn lemma_hold_tap_hold(
    table: Seq<Seq<Action>>,
    states: Seq<PosState>,
    stack: Seq<u8>,
    p: usize,
    h: HoldAction,
)
    requires
        (p as int) < states.len(),
        states[p as int] matches PosState::Pending { elapsed, timeout, hold, .. } && hold == h
            && elapsed + 1 >= timeout,
        forall|q: int|
            0 <= q < states.len() && q != p ==> !(#[trigger] states[q] is Pending) && !(states[q]
                is TapCycle),
    ensures
        step_tick(states, stack) == (
            states.update(p as int, apply_hold(stack, h).1),
            apply_hold(stack, h).0,
        ),
        h matches HoldAction::Key(k) ==> held_of(
            states.update(p as int, PosState::HeldKey(k)),
        ).contains(k),
        (h matches HoldAction::Layer(l) && !stack.contains(l)) ==> apply_hold(stack, h).0
            == stack.push(h->Layer_0) && apply_hold(stack, h).1 == PosState::HeldLayer(h->Layer_0),
        h matches HoldAction::Key(k) ==> step_event(
            table,
            states.update(p as int, PosState::HeldKey(k)),
            stack,
            KeyEvent::Release(p),
        ) == (states.update(p as int, PosState::Idle), stack),
        (h matches HoldAction::Layer(l) && !stack.contains(l)) ==> step_event(
            table,
            states.update(p as int, PosState::HeldLayer(h->Layer_0)),
            stack.push(h->Layer_0),
            KeyEvent::Release(p),
        ) == (states.update(p as int, PosState::Idle), stack),
{
    let pi = p as int;
    lemma_tick_single(states, stack, pi);
    match h {
        HoldAction::Key(k) => {
            let after = states.update(pi, PosState::HeldKey(k));
            lemma_held_contains(after, k);
            assert(asserts_key(after[pi], k));
            lemma_settle_inert(after, stack, pi, after.len() as int);
            assert(after.update(pi, PosState::Idle) =~= states.update(pi, PosState::Idle));
        },
        HoldAction::Layer(l) => {
            if !stack.contains(l) {
                let after = states.update(pi, PosState::HeldLayer(l));
                let pushed = stack.push(l);
                lemma_settle_inert(after, pushed, pi, after.len() as int);
                assert(after.update(pi, PosState::Idle) =~= states.update(pi, PosState::Idle));
                assert(remove_layer(pushed, l) == stack) by {
                    pushed.index_of_first_ensures(l);
                    assert(pushed.contains(l)) by {
                        assert(pushed[stack.len() as int] == l);
                    }
                    let i0 = pushed.index_of_first(l).unwrap();
                    assert(pushed[i0] == l);
                    if i0 < stack.len() as int {
                        assert(stack[i0] == l);
                        assert(stack.contains(l));
                    }
                    assert(i0 == stack.len() as int);
                    assert(pushed.remove(i0) =~= stack);
                }
            }
        },
    }
}

/// Whether `v` holds `k`.
fn vec_has(v: &Vec<u8>, k: u8) -> (r: bool)
    ensures
        r == v@.contains(k),
{
    let mut i: usize = 0;
    while i < v.len()
        invariant
            i <= v@.len(),
            forall|j: int| 0 <= j < i ==> v@[j] != k,
        decreases v@.len() - i,
    {
        if v[i] == k {
            return true;
        }
        i += 1;
    }
    proof {
        assert(!v@.contains(k)) by {
            if v@.contains(k) {
                let w = choose|w: int| 0 <= w < v@.len() && v@[w] == k;
                assert(v@[w] != k);
            }
        }
    }
    false
}

/// Removes the first occurrence of `l` from `stack`, if any.
fn remove_layer_vec(stack: &mut Vec<u8>, l: u8)
    ensures
        final(stack)@ == old(stack)@.remove_value(l),
{
    let ghost s0 = stack@;
    let n = stack.len();
    let mut m: usize = n;
    let mut i: usize = 0;
    while i < n
        invariant
            i <= n,
            m <= n,
            n == s0.len(),
            stack@ == s0,
            m == n ==> forall|j: int| 0 <= j < i ==> s0[j] != l,
            m < n ==> s0[m as int] == l && (forall|j: int| 0 <= j < m ==> s0[j] != l),
        decreases n - i,
    {
        if m == n && stack[i] == l {
            m = i;
        }
        i += 1;
    }
    proof {
        s0.index_of_first_ensures(l);
        if m == n {
            assert(!s0.contains(l)) by {
                if s0.contains(l) {
                    let w = choose|w: int| 0 <= w < s0.len() && s0[w] == l;
                    assert(s0[w] != l);
                }
            }
        } else {
            assert(s0.contains(l)) by {
                assert(s0[m as int] == l);
            }
            assert(s0.index_of_first(l) == Some(m as int)) by {
                let i0 = s0.index_of_first(l).unwrap();
                if i0 < m as int {
                    assert(s0[i0] != l);
                }
                if i0 > m as int {
                    assert(s0[m as int] != l);
                }
            }
        }
    }
    if m == n {
        return ;
    }
    let mut out: Vec<u8> = Vec::new();
    i = 0;
    while i < m
        invariant
            i <= m,
            m < n,
            n == s0.len(),
            stack@ == s0,
            out@ == s0.take(i as int),
        decreases m - i,
    {
        out.push(stack[i]);
        proof {
            assert(out@ =~= s0.take(i + 1));
        }
        i += 1;
    }
    i = m + 1;
    while i < n
        invariant
            m < i <= n,
            n == s0.len(),
            stack@ == s0,
            out@ == s0.take(m as int) + s0.subrange(m as int + 1, i as int),
        decreases n - i,
    {
        out.push(stack[i]);
        proof {
            assert(out@ =~= s0.take(m as int) + s0.subrange(m as int + 1, i + 1));
        }
        i += 1;
    }
    *stack = out;
    proof {
        assert(stack@ =~= s0.remove(m as int));
    }
}

/// The layout engine: the immutable action table, the active layer stack,
/// and the per-position hold-tap state.
pub struct LayoutEngine {
    pub table: Vec<Vec<Action>>,
    pub stack: Vec<u8>,
    pub states: Vec<PosState>,
}

impl LayoutEngine {
    /// The table as a mathematical value.
    pub open spec fn tview(self) -> Seq<Seq<Action>> {
        Seq::new(self.table@.len(), |l: int| self.table@[l]@)
    }

    /// Well-formedness: a well-formed table and stack, one state per
    /// position, every state well formed.
    pub open spec fn wf(self) -> bool {
        &&& table_wf(self.tview())
        &&& stack_wf(self.stack@, self.tview().len() as int)
        &&& self.states@.len() == self.tview()[0].len()
        &&& forall|p: int|
            0 <= p < self.states@.len() ==> state_wf(
                #[trigger] self.states@[p],
                self.tview().len() as int,
            )
    }

    /// Number of positions.
    pub open spec fn n_positions(self) -> int {
        self.states@.len() as int
    }

    /// Builds an engine from a layout table, refusing a malformed one: the
    /// result is `Some` exactly when the table is well formed, and the
    /// engine then starts with only the base layer active and every
    /// position idle.
    pub fn new(table: Vec<Vec<Action>>) -> (r: Option<LayoutEngine>)
        ensures
            r is Some <==> table_wf(Seq::new(table@.len(), |l: int| table@[l]@)),
            r matches Some(e) ==> {
                &&& e.wf()
                &&& e.tview() == Seq::new(table@.len(), |l: int| table@[l]@)
                &&& e.stack@ == seq![0u8]
                &&& e.states@.len() == table@[0]@.len()
                &&& forall|p: int| 0 <= p < e.states@.len() ==> e.states@[p] == PosState::Idle
            },
    {
        let ghost tv = Seq::new(table@.len(), |l: int| table@[l]@);
        let n_layers = table.len();
        if n_layers == 0 || n_layers > 256 {
            return None;
        }
        let n = table[0].len();
        let mut l: usize = 0;
        while l < n_layers
            invariant
                l <= n_layers,
                n_layers == table@.len(),
                1 <= n_layers <= 256,
                tv == Seq::new(table@.len(), |l2: int| table@[l2]@),
                n == table@[0]@.len(),
                forall|l2: int| 0 <= l2 < l ==> #[trigger] tv[l2].len() == n,
                forall|l2: int, p2: int|
                    0 <= l2 < l && 0 <= p2 < n ==> action_wf(
                        #[trigger] tv[l2][p2],
                        n_layers as int,
                    ),
                forall|p2: int| 0 <= p2 < n && l > 0 ==> #[trigger] tv[0][p2] != Action::Transparent,
            decreases n_layers - l,
        {
            if table[l].len() != n {
                proof {
                    assert(tv[l as int] == table@[l as int]@);
                }
                return None;
            }
            let mut p: usize = 0;
            while p < n
                invariant
                    p <= n,
                    l < n_layers,
                    n_layers == table@.len(),
                    tv == Seq::new(table@.len(), |l2: int| table@[l2]@),
                    n == table@[0]@.len(),
                    table@[l as int]@.len() == n,
                    forall|p2: int|
                        0 <= p2 < p ==> action_wf(#[trigger] tv[l as int][p2], n_layers as int),
                    forall|p2: int|
                        0 <= p2 < p && l == 0 ==> #[trigger] tv[0][p2] != Action::Transparent,
                decreases n - p,
            {
                let a = table[l][p];
                proof {
                    assert(tv[l as int] == table@[l as int]@);
                    assert(tv[l as int][p as int] == a);
                }
                match a {
                    Action::Transparent => {
                        if l == 0 {
                            return None;
                        }
                    },
                    Action::Direct(k) => {
                        if k == 0 {
                            return None;
                        }
                    },
                    Action::LayerToggle(li) => {
                        if li as usize >= n_layers {
                            return None;
                        }
                    },
                    Action::HoldTap { timeout, hold, tap } => {
                        if timeout < 1 || tap == 0 {
                            return None;
                        }
                        match hold {
                            HoldAction::Key(k) => {
                                if k == 0 {
                                    return None;
                                }
                            },
                            HoldAction::Layer(li) => {
                                if li as usize >= n_layers {
                                    return None;
                                }
                            },
                        }
                    },
                }
                p += 1;
            }
            l += 1;
        }
        let mut stack: Vec<u8> = Vec::new();
        stack.push(0u8);
        let mut states: Vec<PosState> = Vec::new();
        let mut p: usize = 0;
        while p < n
            invariant
                p <= n,
                states@.len() == p,
                forall|p2: int| 0 <= p2 < p ==> states@[p2] == PosState::Idle,
            decreases n - p,
        {
            states.push(PosState::Idle);
            p += 1;
        }
        proof {
            assert(table_wf(tv));
            assert(stack@ =~= seq![0u8]);
            assert(stack@.contains(0u8)) by {
                assert(stack@[0] == 0u8);
            }
        }
        Some(LayoutEngine { table, stack, states })
    }

    /// Resolves the action at a position against the current layer stack:
    /// the first non-transparent cell from the topmost active layer down.
    /// Under well-formedness it never comes out transparent.
    pub fn resolve_at(&self, p: usize) -> (a: Action)
        requires
            self.wf(),
            (p as int) < self.n_positions(),
        ensures
            a == resolve_in(self.tview(), self.stack@, p as int),
            a != Action::Transparent,
            action_wf(a, self.tview().len() as int),
    {
        proof {
            lemma_resolve_not_transparent(self.tview(), self.stack@, p as int);
            lemma_resolve_wf(self.tview(), self.stack@, p as int);
            assert(self.stack@.take(self.stack@.len() as int) =~= self.stack@);
        }
        let mut i: usize = self.stack.len();
        loop
            invariant
                self.wf(),
                (p as int) < self.n_positions(),
                1 <= i <= self.stack@.len(),
                resolve_in(self.tview(), self.stack@.take(i as int), p as int) == resolve_in(
                    self.tview(),
                    self.stack@,
                    p as int,
                ),
            decreases i,
        {
            i -= 1;
            let l = self.stack[i] as usize;
            let a = self.table[l][p];
            proof {
                assert(self.stack@.take(i as int + 1).last() == self.stack@[i as int]);
                assert(self.stack@.take(i as int + 1).drop_last() =~= self.stack@.take(i as int));
            }
            match a {
                Action::Transparent => {
                    if i == 0 {
                        proof {
                            lemma_resolve_not_transparent(self.tview(), self.stack@, p as int);
                            assert(self.stack@.take(1).len() == 1);
                            assert(false);
                        }
                        return a;
                    }
                },
                _ => {
                    proof {
                        lemma_resolve_not_transparent(self.tview(), self.stack@, p as int);
                        lemma_resolve_wf(self.tview(), self.stack@, p as int);
                    }
                    return a;
                },
            }
        }
    }

    /// The full current held-set, in position order, without duplicates.
    pub fn held_keys(&self) -> (held: Vec<u8>)
        ensures
            held@ == held_of(self.states@),
    {
        let n = self.states.len();
        let mut held: Vec<u8> = Vec::new();
        let mut p: usize = 0;
        while p < n
            invariant
                p <= n,
                n == self.states@.len(),
                held@ == held_of(self.states@.take(p as int)),
            decreases n - p,
        {
            proof {
                assert(self.states@.take(p + 1).drop_last() =~= self.states@.take(p as int));
                assert(self.states@.take(p + 1).last() == self.states@[p as int]);
            }
            match self.states[p] {
                PosState::HeldKey(k) => {
                    if !vec_has(&held, k) {
                        held.push(k);
                    }
                },
                PosState::TapCycle(k) => {
                    if !vec_has(&held, k) {
                        held.push(k);
                    }
                },
                _ => {},
            }
            p += 1;
        }
        proof {
            assert(self.states@.take(n as int) =~= self.states@);
        }
        held
    }

    /// Applies one confirmed key event and returns the full updated
    /// held-set. Any pending hold-tap at another position resolves to its
    /// hold meaning first; then the event's own position presses its
    /// resolved action, or undoes what it was holding. A press of a
    /// position already engaged is a configuration error and stays outside
    /// the contract.
    pub fn event(&mut self, ev: KeyEvent) -> (held: Vec<u8>)
        requires
            old(self).wf(),
            0 <= ev.pos() < old(self).n_positions(),
            ev is Press ==> old(self).states@[ev.pos()] is Idle,
            ev is Release ==> engaged(old(self).states@[ev.pos()]),
        ensures
            final(self).wf(),
            final(self).tview() == old(self).tview(),
            final(self).states@ == step_event(
                old(self).tview(),
                old(self).states@,
                old(self).stack@,
                ev,
            ).0,
            final(self).stack@ == step_event(
                old(self).tview(),
                old(self).states@,
                old(self).stack@,
                ev,
            ).1,
            held@ == held_of(final(self).states@),
    {
        let p = match ev {
            KeyEvent::Press(q) => q,
            KeyEvent::Release(q) => q,
        };
        let ghost tv = old(self).tview();
        let ghost states0 = old(self).states@;
        let ghost stack0 = old(self).stack@;
        let ghost nl = tv.len() as int;
        let n = self.states.len();
        let mut i: usize = 0;
        while i < n
            invariant
                i <= n,
                n == states0.len(),
                self.tview() == tv,
                table_wf(tv),
                self.states@.len() == n,
                (self.states@, self.stack@) == settle_upto(states0, stack0, p as int, i as int),
                stack_wf(self.stack@, nl),
                forall|q: int|
                    0 <= q < n ==> state_wf(#[trigger] self.states@[q], nl),
                forall|q: int|
                    0 <= q < n ==> state_wf(#[trigger] states0[q], nl),
            decreases n - i,
        {
            proof {
                lemma_settle_frame(states0, stack0, p as int, i as int);
                assert(self.states@[i as int] == states0[i as int]);
            }
            let st = self.states[i];
            match st {
                PosState::Pending { elapsed, timeout, hold, tap } => {
                    if i != p {
                        match hold {
                            HoldAction::Key(k) => {
                                self.states.set(i, PosState::HeldKey(k));
                            },
                            HoldAction::Layer(li) => {
                                if vec_has(&self.stack, li) {
                                    self.states.set(i, PosState::HeldNone);
                                } else {
                                    proof {
                                        assert(self.stack@.contains(0u8)) by {
                                            assert(self.stack@[0] == 0u8);
                                        }
                                    }
                                    self.stack.push(li);
                                    self.states.set(i, PosState::HeldLayer(li));
                                }
                            },
                        }
                    }
                },
                _ => {},
            }
            proof {
                assert((self.states@, self.stack@) == settle_upto(
                    states0,
                    stack0,
                    p as int,
                    i + 1,
                ));
            }
            i += 1;
        }
        proof {
            lemma_settle_frame(states0, stack0, p as int, n as int);
            assert(self.states@[p as int] == states0[p as int]);
        }
        match ev {
            KeyEvent::Press(_) => {
                let a = self.resolve_at(p);
                match a {
                    Action::Transparent => {
                        self.states.set(p, PosState::HeldNone);
                    },
                    Action::Direct(k) => {
                        self.states.set(p, PosState::HeldKey(k));
                    },
                    Action::LayerToggle(li) => {
                        if vec_has(&self.stack, li) {
                            self.states.set(p, PosState::HeldNone);
                        } else {
                            proof {
                                assert(self.stack@.contains(0u8)) by {
                                    assert(self.stack@[0] == 0u8);
                                }
                            }
                            self.stack.push(li);
                            self.states.set(p, PosState::HeldLayer(li));
                        }
                    },
                    Action::HoldTap { timeout, hold, tap } => {
                        self.states.set(
                            p,
                            PosState::Pending { elapsed: 0u16, timeout, hold, tap },
                        );
                    },
                }
            },
            KeyEvent::Release(_) => {
                let st = self.states[p];
                match st {
                    PosState::HeldKey(_) => {
                        self.states.set(p, PosState::Idle);
                    },
                    PosState::HeldNone => {
                        self.states.set(p, PosState::Idle);
                    },
                    PosState::HeldLayer(li) => {
                        self.states.set(p, PosState::Idle);
                        proof {
                            assert(self.stack@[0] == 0u8 && li != 0u8);
                        }
                        remove_layer_vec(&mut self.stack, li);
                        proof {
                            let sk = settle_all(states0, stack0, p as int).1;
                            sk.index_of_first_ensures(li);
                            if sk.contains(li) {
                                let i0 = sk.index_of_first(li).unwrap();
                                assert(sk.remove(i0)[0] == sk[0]);
                            }
                        }
                    },
                    PosState::Pending { elapsed, timeout, hold, tap } => {
                        self.states.set(p, PosState::TapCycle(tap));
                    },
                    _ => {},
                }
            },
        }
        self.held_keys()
    }

    /// One scheduler tick: every pending hold-tap timer advances by one
    /// period, resolving to its hold meaning when it reaches its window;
    /// every tap cycle ends. Returns the full updated held-set.
    pub fn tick(&mut self) -> (held: Vec<u8>)
        requires
            old(self).wf(),
        ensures
            final(self).wf(),
            final(self).tview() == old(self).tview(),
            final(self).states@ == step_tick(old(self).states@, old(self).stack@).0,
            final(self).stack@ == step_tick(old(self).states@, old(self).stack@).1,
            held@ == held_of(final(self).states@),
    {
        let ghost tv = old(self).tview();
        let ghost states0 = old(self).states@;
        let ghost stack0 = old(self).stack@;
        let ghost nl = tv.len() as int;
        let n = self.states.len();
        let mut i: usize = 0;
        while i < n
            invariant
                i <= n,
                n == states0.len(),
                self.tview() == tv,
                table_wf(tv),
                self.states@.len() == n,
                (self.states@, self.stack@) == tick_upto(states0, stack0, i as int),
                stack_wf(self.stack@, nl),
                forall|q: int|
                    0 <= q < n ==> state_wf(#[trigger] self.states@[q], nl),
                forall|q: int|
                    0 <= q < n ==> state_wf(#[trigger] states0[q], nl),
            decreases n - i,
        {
            proof {
                lemma_tick_frame(states0, stack0, i as int);
                assert(self.states@[i as int] == states0[i as int]);
            }
            let st = self.states[i];
            match st {
                PosState::Pending { elapsed, timeout, hold, tap } => {
                    if elapsed + 1 >= timeout {
                        match hold {
                            HoldAction::Key(k) => {
                                self.states.set(i, PosState::HeldKey(k));
                            },
                            HoldAction::Layer(li) => {
                                if vec_has(&self.stack, li) {
                                    self.states.set(i, PosState::HeldNone);
                                } else {
                                    proof {
                                        assert(self.stack@.contains(0u8)) by {
                                            assert(self.stack@[0] == 0u8);
                                        }
                                    }
                                    self.stack.push(li);
                                    self.states.set(i, PosState::HeldLayer(li));
                                }
                            },
                        }
                    } else {
                        self.states.set(
                            i,
                            PosState::Pending { elapsed: elapsed + 1, timeout, hold, tap },
                        );
                    }
                },
                PosState::TapCycle(_) => {
                    self.states.set(i, PosState::Idle);
                },
                _ => {},
            }
            proof {
                assert((self.states@, self.stack@) == tick_upto(states0, stack0, i + 1));
            }
            i += 1;
        }
        self.held_keys()
    }
}

} // verus!
