//! The periodic pipeline step: one raw snapshot runs through the debouncer,
//! each confirmed event and one timer tick through the layout engine, and
//! every updated held-set is packed into a wire report.

use vstd::prelude::*;
use crate::action::{Action, PosState, engaged};
use crate::debounce::{Debouncer, KeyEvent, db_events, db_flips, db_next_confirmed,
    db_step_confirmed, db_step_count, lemma_events_props};
use crate::layout::{LayoutEngine, held_of, lemma_settle_effect, lemma_settle_frame,
    lemma_tick_effect, lemma_tick_frame, press_result, settle_all, step_event, step_tick,
    table_wf};
use crate::report::{Report, build_report, mods_mask, nonmods, truncate_keys};

verus! {

/// The layout engine's state after a sequence of events, in order.
pub open spec fn layout_run(
    table: Seq<Seq<Action>>,
    states: Seq<PosState>,
    stack: Seq<u8>,
    evs: Seq<KeyEvent>,
) -> (Seq<PosState>, Seq<u8>)
    decreases evs.len(),
{
    if evs.len() == 0 {
        (states, stack)
    } else {
        let r = layout_run(table, states, stack, evs.drop_last());
        step_event(table, r.0, r.1, evs.last())
    }
}

/// Whether one of the first `j` events concerns position `p`.
pub open spec fn touched(evs: Seq<KeyEvent>, j: int, p: int) -> bool {
    exists|i: int| 0 <= i < j && (#[trigger] evs[i]).pos() == p
}

/// Whether `r` is the wire report of the held-set `held`.
pub open spec fn report_for(r: Report, held: Seq<u8>) -> bool {
    r.modifiers == mods_mask(held) && r.keys@ == truncate_keys(nonmods(held))
}

/// Debouncer and layout engine bound to one matrix, stepped once per
/// scheduler period.
pub struct Pipeline {
    pub debouncer: Debouncer,
    pub layout: LayoutEngine,
}

impl Pipeline {
    /// Well-formedness: both halves well formed, one debounce cell per
    /// position, a position engaged in the layout exactly when its confirmed
    /// bit is set, and no tap cycle left over between periods.
    pub open spec fn wf(self) -> bool {
        &&& self.debouncer.wf()
        &&& self.layout.wf()
        &&& self.debouncer.confirmed@.len() == self.layout.states@.len()
        &&& forall|p: int|
            0 <= p < self.layout.states@.len() ==> engaged(#[trigger] self.layout.states@[p])
                == self.debouncer.confirmed@[p]
        &&& forall|p: int|
            0 <= p < self.layout.states@.len() ==> !((#[trigger] self.layout.states@[p])
                is TapCycle)
    }

    /// Builds the pipeline over a layout table, refusing a malformed one,
    /// with every position released and every debounce counter reset.
    pub fn new(table: Vec<Vec<Action>>, threshold: u16) -> (r: Option<Pipeline>)
        requires
            threshold >= 1,
        ensures
            r is Some <==> table_wf(Seq::new(table@.len(), |l: int| table@[l]@)),
            r matches Some(pl) ==> {
                &&& pl.wf()
                &&& pl.debouncer.threshold == threshold
                &&& pl.layout.tview() == Seq::new(table@.len(), |l: int| table@[l]@)
                &&& pl.layout.stack@ == seq![0u8]
                &&& forall|p: int|
                    0 <= p < pl.layout.states@.len() ==> pl.layout.states@[p] == PosState::Idle
            },
    {
        match LayoutEngine::new(table) {
            None => None,
            Some(layout) => {
                let n = layout.states.len();
                let debouncer = Debouncer::new(n, threshold);
                Some(Pipeline { debouncer, layout })
            },
        }
    }

    /// Number of positions.
    pub open spec fn n_positions(self) -> int {
        self.layout.states@.len() as int
    }

    /// One scheduler period. The snapshot advances every debounce cell by
    /// one step; each confirmed event, in position order, and then one
    /// hold-tap tick drive the layout engine; after every one of those
    /// updates the full held-set is packed into a report. The result holds
    /// the report after each event and, last, the report after the tick.
    pub fn run_tick(&mut self, snapshot: &Vec<bool>) -> (reports: Vec<Report>)
        requires
            old(self).wf(),
            snapshot@.len() == old(self).n_positions(),
        ensures
            final(self).wf(),
            final(self).debouncer.threshold == old(self).debouncer.threshold,
            final(self).layout.tview() == old(self).layout.tview(),
            final(self).debouncer.confirmed@ == db_step_confirmed(
                old(self).debouncer.confirmed@,
                old(self).debouncer.count@,
                snapshot@,
                old(self).debouncer.threshold,
            ),
            final(self).debouncer.count@ == db_step_count(
                old(self).debouncer.confirmed@,
                old(self).debouncer.count@,
                snapshot@,
                old(self).debouncer.threshold,
            ),
            ({
                let evs = db_events(
                    old(self).debouncer.confirmed@,
                    old(self).debouncer.count@,
                    snapshot@,
                    old(self).debouncer.threshold,
                );
                let lr = layout_run(
                    old(self).layout.tview(),
                    old(self).layout.states@,
                    old(self).layout.stack@,
                    evs,
                );
                &&& final(self).layout.states@ == step_tick(lr.0, lr.1).0
                &&& final(self).layout.stack@ == step_tick(lr.0, lr.1).1
                &&& reports@.len() == evs.len() + 1
                &&& forall|i: int|
                    0 <= i < evs.len() ==> report_for(
                        #[trigger] reports@[i],
                        held_of(
                            layout_run(
                                old(self).layout.tview(),
                                old(self).layout.states@,
                                old(self).layout.stack@,
                                evs.take(i + 1),
                            ).0,
                        ),
                    )
                &&& report_for(
                    reports@[evs.len() as int],
                    held_of(step_tick(lr.0, lr.1).0),
                )
            }),
            forall|i: int| 0 <= i < reports@.len() ==> (#[trigger] reports@[i]).wf(),
    {
        let n_pos = snapshot.len();
        let ghost tv = old(self).layout.tview();
        let ghost states0 = old(self).layout.states@;
        let ghost stack0 = old(self).layout.stack@;
        let ghost conf0 = old(self).debouncer.confirmed@;
        let ghost cnt0 = old(self).debouncer.count@;
        let ghost t = old(self).debouncer.threshold;
        let evs = self.debouncer.events(snapshot);
        let ghost evseq = evs@;
        let ghost newconf = db_step_confirmed(conf0, cnt0, snapshot@, t);
        proof {
            assert(conf0.len() == n_pos);
            lemma_events_props(conf0, cnt0, snapshot@, t, conf0.len() as int);
            assert(evseq.take(0) =~= Seq::<KeyEvent>::empty());
        }
        let n = evs.len();
        let mut reports: Vec<Report> = Vec::new();
        let mut j: usize = 0;
        while j < n
            invariant
                j <= n,
                n == evseq.len(),
                evs@ == evseq,
                evseq == db_events(conf0, cnt0, snapshot@, t),
                conf0.len() == n_pos,
                conf0.len() == states0.len(),
                cnt0.len() == states0.len(),
                snapshot@.len() == states0.len(),
                t >= 1,
                self.debouncer.wf(),
                newconf == db_step_confirmed(conf0, cnt0, snapshot@, t),
                self.debouncer.confirmed@ == newconf,
                self.debouncer.count@ == db_step_count(conf0, cnt0, snapshot@, t),
                self.debouncer.threshold == t,
                table_wf(tv),
                self.layout.wf(),
                self.layout.tview() == tv,
                self.layout.states@.len() == states0.len(),
                (self.layout.states@, self.layout.stack@) == layout_run(
                    tv,
                    states0,
                    stack0,
                    evseq.take(j as int),
                ),
                forall|p: int|
                    0 <= p < states0.len() ==> engaged(#[trigger] states0[p]) == conf0[p] && !(
                    states0[p] is TapCycle),
                forall|p: int|
                    0 <= p < states0.len() && !touched(evseq, j as int, p) ==> (engaged(
                        #[trigger] self.layout.states@[p],
                    ) == engaged(states0[p]) && !(self.layout.states@[p] is TapCycle) && ((
                    self.layout.states@[p] is Idle) == (states0[p] is Idle))),
                forall|p: int|
                    0 <= p < states0.len() && touched(evseq, j as int, p) ==> engaged(
                        #[trigger] self.layout.states@[p],
                    ) == newconf[p],
                reports@.len() == j,
                forall|i: int|
                    0 <= i < j ==> report_for(
                        #[trigger] reports@[i],
                        held_of(layout_run(tv, states0, stack0, evseq.take(i + 1)).0),
                    ),
                forall|i: int| 0 <= i < reports@.len() ==> (#[trigger] reports@[i]).wf(),
            decreases n - j,
        {
            let ev = evs[j];
            let p = match ev {
                KeyEvent::Press(q) => q,
                KeyEvent::Release(q) => q,
            };
            let ghost prev_states = self.layout.states@;
            let ghost prev_stack = self.layout.stack@;
            proof {
                assert(conf0.len() <= usize::MAX);
                lemma_events_props(conf0, cnt0, snapshot@, t, conf0.len() as int);
                assert(ev.pos() == p as int);
                assert(0 <= (p as int) < states0.len());
                assert(!touched(evseq, j as int, p as int)) by {
                    if touched(evseq, j as int, p as int) {
                        let i = choose|i: int|
                            0 <= i < j && (#[trigger] evseq[i]).pos() == p as int;
                        assert(evseq[i].pos() < evseq[j as int].pos());
                    }
                }
                assert(db_flips(conf0[p as int], cnt0[p as int], snapshot@[p as int], t));
                assert(newconf[p as int] == db_next_confirmed(
                    conf0[p as int],
                    cnt0[p as int],
                    snapshot@[p as int],
                    t,
                ));
                if ev is Press {
                    assert(snapshot@[p as int]);
                    assert(!conf0[p as int]);
                    assert(!engaged(states0[p as int]));
                    assert(states0[p as int] is Idle);
                    assert(self.layout.states@[p as int] is Idle);
                } else {
                    assert(conf0[p as int]);
                    assert(engaged(states0[p as int]));
                    assert(engaged(self.layout.states@[p as int]));
                }
            }
            let held = self.layout.event(ev);
            let rep = build_report(&held);
            reports.push(rep);
            proof {
                assert(evseq.take(j + 1).drop_last() =~= evseq.take(j as int));
                assert(evseq.take(j + 1).last() == evseq[j as int]);
                assert((self.layout.states@, self.layout.stack@) == layout_run(
                    tv,
                    states0,
                    stack0,
                    evseq.take(j + 1),
                ));
                let settled = settle_all(prev_states, prev_stack, p as int);
                lemma_settle_effect(prev_states, prev_stack, p as int, prev_states.len() as int);
                lemma_settle_frame(prev_states, prev_stack, p as int, prev_states.len() as int);
                // how this event left its own position
                assert(engaged(self.layout.states@[p as int]) == newconf[p as int]) by {
                    if ev is Press {
                        assert(self.layout.states@[p as int] == press_result(
                            settled.1,
                            crate::layout::resolve_in(tv, settled.1, p as int),
                        ).1);
                    } else {
                        assert(settled.0[p as int] == prev_states[p as int]);
                    }
                }
                // every other position: settling only engages, never a tap cycle
                assert forall|q: int|
                    0 <= q < states0.len() && !touched(evseq, j + 1, q) implies (engaged(
                        #[trigger] self.layout.states@[q],
                    ) == engaged(states0[q]) && !(self.layout.states@[q] is TapCycle) && ((
                    self.layout.states@[q] is Idle) == (states0[q] is Idle))) by {
                    assert(q != p as int) by {
                        if q == p as int {
                            assert(evseq[j as int].pos() == q);
                        }
                    }
                    assert(!touched(evseq, j as int, q)) by {
                        if touched(evseq, j as int, q) {
                            let i = choose|i: int|
                                0 <= i < j && (#[trigger] evseq[i]).pos() == q;
                            assert(evseq[i].pos() == q);
                        }
                    }
                    assert(self.layout.states@[q] == settled.0[q]);
                }
                assert forall|q: int|
                    0 <= q < states0.len() && touched(evseq, j + 1, q) implies engaged(
                        #[trigger] self.layout.states@[q],
                    ) == newconf[q] by {
                    if q != p as int {
                        assert(touched(evseq, j as int, q)) by {
                            let i = choose|i: int|
                                0 <= i < j + 1 && (#[trigger] evseq[i]).pos() == q;
                            assert(i != j as int);
                        }
                        assert(self.layout.states@[q] == settled.0[q]);
                        assert(engaged(settled.0[q]) == engaged(prev_states[q]));
                    }
                }
            }
            j += 1;
        }
        proof {
            assert(evseq.take(n as int) =~= evseq);
            // an untouched position keeps its confirmed bit, so the link holds everywhere
            assert forall|p: int|
                0 <= p < states0.len() implies engaged(#[trigger] self.layout.states@[p])
                == newconf[p] by {
                if !touched(evseq, n as int, p) {
                    assert(!db_flips(conf0[p], cnt0[p], snapshot@[p], t));
                    assert(newconf[p] == conf0[p]);
                }
            }
        }
        let ghost before_tick = self.layout.states@;
        let held = self.layout.tick();
        let rep = build_report(&held);
        reports.push(rep);
        proof {
            let lr = layout_run(tv, states0, stack0, evseq);
            lemma_tick_effect(lr.0, lr.1, lr.0.len() as int);
            lemma_tick_frame(lr.0, lr.1, lr.0.len() as int);
        }
        reports
    }
}

} // verus!
