//! Debounce filter: per position a last-confirmed-stable bit and a counter of
//! consecutive scans that disagree with it; a transition is confirmed, and one
//! event emitted, only once `threshold` consecutive scans agree on the
//! differing value.

use vstd::prelude::*;

verus! {

/// A confirmed transition at a matrix position (row-major index).
#[derive(Clone, Copy, PartialEq, Eq, Structural, Debug)]
pub enum KeyEvent {
    Press(usize),
    Release(usize),
}

impl KeyEvent {
    /// The position the event is about.
    pub open spec fn pos(self) -> int {
        match self {
            KeyEvent::Press(p) => p as int,
            KeyEvent::Release(p) => p as int,
        }
    }
}

/// One position, one scan: whether this scan confirms a transition
/// (the raw bit disagrees and the counter reaches the threshold).
pub open spec fn db_flips(confirmed: bool, count: u16, raw: bool, t: u16) -> bool {
    raw != confirmed && count + 1 >= t
}

/// One position, one scan: the confirmed bit afterwards.
pub open spec fn db_next_confirmed(confirmed: bool, count: u16, raw: bool, t: u16) -> bool {
    if db_flips(confirmed, count, raw, t) {
        raw
    } else {
        confirmed
    }
}

/// One position, one scan: the counter afterwards. It counts consecutive
/// disagreeing scans and resets on agreement or on a confirmed flip.
pub open spec fn db_next_count(confirmed: bool, count: u16, raw: bool, t: u16) -> u16 {
    if raw != confirmed && !db_flips(confirmed, count, raw, t) {
        (count + 1) as u16
    } else {
        0u16
    }
}

/// One whole scan: the confirmed bits afterwards.
pub open spec fn db_step_confirmed(conf: Seq<bool>, cnt: Seq<u16>, raw: Seq<bool>, t: u16) -> Seq<
    bool,
> {
    Seq::new(conf.len(), |p: int| db_next_confirmed(conf[p], cnt[p], raw[p], t))
}

/// One whole scan: the counters afterwards.
pub open spec fn db_step_count(conf: Seq<bool>, cnt: Seq<u16>, raw: Seq<bool>, t: u16) -> Seq<
    u16,
> {
    Seq::new(cnt.len(), |p: int| db_next_count(conf[p], cnt[p], raw[p], t))
}

/// The events of one scan, for positions below `n`, in position order.
pub open spec fn events_upto(conf: Seq<bool>, cnt: Seq<u16>, raw: Seq<bool>, t: u16, n: int) -> Seq<
    KeyEvent,
>
    decreases n,
{
    if n <= 0 {
        Seq::empty()
    } else {
        let rest = events_upto(conf, cnt, raw, t, n - 1);
        if db_flips(conf[n - 1], cnt[n - 1], raw[n - 1], t) {
            rest.push(
                if raw[n - 1] {
                    KeyEvent::Press((n - 1) as usize)
                } else {
                    KeyEvent::Release((n - 1) as usize)
                },
            )
        } else {
            rest
        }
    }
}

/// The events of one scan, in position order.
pub open spec fn db_events(conf: Seq<bool>, cnt: Seq<u16>, raw: Seq<bool>, t: u16) -> Seq<
    KeyEvent,
> {
    events_upto(conf, cnt, raw, t, conf.len() as int)
}

/// Shape of one scan's event list: at most one event per position, positions
/// strictly increasing, a press exactly where the raw bit is set, and an
/// event at a position exactly where that position's debounce step flips.
pub proof fn lemma_events_props(conf: Seq<bool>, cnt: Seq<u16>, raw: Seq<bool>, t: u16, n: int)
    requires
        n <= conf.len(),
        n <= usize::MAX,
    ensures
        forall|i: int|
            0 <= i < events_upto(conf, cnt, raw, t, n).len() ==> 0 <= (
            #[trigger] events_upto(conf, cnt, raw, t, n)[i]).pos() < n,
        forall|a: int, b: int|
            0 <= a < b < events_upto(conf, cnt, raw, t, n).len() ==> events_upto(
                conf,
                cnt,
                raw,
                t,
                n,
            )[a].pos() < events_upto(conf, cnt, raw, t, n)[b].pos(),
        forall|i: int|
            0 <= i < events_upto(conf, cnt, raw, t, n).len() ==> ((
            #[trigger] events_upto(conf, cnt, raw, t, n)[i]) is Press <==> raw[events_upto(
                conf,
                cnt,
                raw,
                t,
                n,
            )[i].pos()]),
        forall|i: int|
            0 <= i < events_upto(conf, cnt, raw, t, n).len() ==> db_flips(
                conf[(#[trigger] events_upto(conf, cnt, raw, t, n)[i]).pos()],
                cnt[events_upto(conf, cnt, raw, t, n)[i].pos()],
                raw[events_upto(conf, cnt, raw, t, n)[i].pos()],
                t,
            ),
        forall|p: int|
            0 <= p < n ==> (db_flips(conf[p], cnt[p], raw[p], t) <==> exists|i: int|
                0 <= i < events_upto(conf, cnt, raw, t, n).len() && (#[trigger] events_upto(
                    conf,
                    cnt,
                    raw,
                    t,
                    n,
                )[i]).pos() == p),
    decreases n,
{
    if n > 0 {
        lemma_events_props(conf, cnt, raw, t, n - 1);
        let prev = events_upto(conf, cnt, raw, t, n - 1);
        let cur = events_upto(conf, cnt, raw, t, n);
        if db_flips(conf[n - 1], cnt[n - 1], raw[n - 1], t) {
            assert(cur.last().pos() == n - 1);
            assert forall|p: int|
                0 <= p < n implies (db_flips(conf[p], cnt[p], raw[p], t) <==> exists|i: int|
                0 <= i < cur.len() && (#[trigger] cur[i]).pos() == p) by {
                if p < n - 1 {
                    if db_flips(conf[p], cnt[p], raw[p], t) {
                        let i = choose|i: int| 0 <= i < prev.len() && (#[trigger] prev[i]).pos() == p;
                        assert(cur[i].pos() == p);
                    }
                    if exists|i: int| 0 <= i < cur.len() && (#[trigger] cur[i]).pos() == p {
                        let i = choose|i: int| 0 <= i < cur.len() && (#[trigger] cur[i]).pos() == p;
                        assert(i < prev.len());
                        assert(prev[i].pos() == p);
                    }
                } else {
                    assert(cur[cur.len() - 1].pos() == p);
                }
            }
        } else {
            assert forall|p: int|
                0 <= p < n implies (db_flips(conf[p], cnt[p], raw[p], t) <==> exists|i: int|
                0 <= i < cur.len() && (#[trigger] cur[i]).pos() == p) by {
                if p == n - 1 {
                    if exists|i: int| 0 <= i < cur.len() && (#[trigger] cur[i]).pos() == p {
                        let i = choose|i: int| 0 <= i < cur.len() && (#[trigger] cur[i]).pos() == p;
                        assert(prev[i].pos() < n - 1);
                    }
                }
            }
        }
    }
}

/// The debounce filter over all positions, with a shared threshold.
pub struct Debouncer {
    pub confirmed: Vec<bool>,
    pub count: Vec<u16>,
    pub threshold: u16,
}

impl Debouncer {
    /// Well-formedness: aligned per-position state, a positive threshold, and
    /// every counter strictly below it (a counter reaching it has flipped).
    pub open spec fn wf(self) -> bool {
        &&& self.count@.len() == self.confirmed@.len()
        &&& self.threshold >= 1
        &&& forall|p: int| 0 <= p < self.count@.len() ==> self.count@[p] < self.threshold
    }

    /// A fresh filter: every position confirmed released, every counter zero.
    pub fn new(n: usize, threshold: u16) -> (d: Debouncer)
        requires
            threshold >= 1,
        ensures
            d.wf(),
            d.threshold == threshold,
            d.confirmed@.len() == n,
            forall|p: int| 0 <= p < n ==> !d.confirmed@[p],
            forall|p: int| 0 <= p < n ==> d.count@[p] == 0u16,
    {
        let mut confirmed: Vec<bool> = Vec::new();
        let mut count: Vec<u16> = Vec::new();
        let mut i: usize = 0;
        while i < n
            invariant
                confirmed@.len() == i,
                count@.len() == i,
                i <= n,
                forall|p: int| 0 <= p < i ==> !confirmed@[p],
                forall|p: int| 0 <= p < i ==> count@[p] == 0u16,
            decreases n - i,
        {
            confirmed.push(false);
            count.push(0u16);
            i += 1;
        }
        Debouncer { confirmed, count, threshold }
    }

    /// Feeds one raw snapshot; every position advances by one debounce step,
    /// and the confirmed transitions of this scan come back as events in
    /// position order.
    pub fn events(&mut self, snapshot: &Vec<bool>) -> (evs: Vec<KeyEvent>)
        requires
            old(self).wf(),
            snapshot@.len() == old(self).confirmed@.len(),
        ensures
            final(self).wf(),
            final(self).threshold == old(self).threshold,
            final(self).confirmed@ == db_step_confirmed(
                old(self).confirmed@,
                old(self).count@,
                snapshot@,
                old(self).threshold,
            ),
            final(self).count@ == db_step_count(
                old(self).confirmed@,
                old(self).count@,
                snapshot@,
                old(self).threshold,
            ),
            evs@ == db_events(
                old(self).confirmed@,
                old(self).count@,
                snapshot@,
                old(self).threshold,
            ),
    {
        let ghost conf0 = self.confirmed@;
        let ghost cnt0 = self.count@;
        let t = self.threshold;
        let n = self.confirmed.len();
        let mut new_conf: Vec<bool> = Vec::new();
        let mut new_cnt: Vec<u16> = Vec::new();
        let mut evs: Vec<KeyEvent> = Vec::new();
        let mut p: usize = 0;
        while p < n
            invariant
                p <= n,
                n == conf0.len(),
                cnt0.len() == conf0.len(),
                snapshot@.len() == conf0.len(),
                t >= 1,
                forall|q: int| 0 <= q < cnt0.len() ==> cnt0[q] < t,
                self.confirmed@ == conf0,
                self.count@ == cnt0,
                new_conf@.len() == p,
                new_cnt@.len() == p,
                forall|q: int|
                    0 <= q < p ==> new_conf@[q] == db_next_confirmed(
                        conf0[q],
                        cnt0[q],
                        snapshot@[q],
                        t,
                    ),
                forall|q: int|
                    0 <= q < p ==> new_cnt@[q] == db_next_count(conf0[q], cnt0[q], snapshot@[q], t),
                forall|q: int| 0 <= q < p ==> new_cnt@[q] < t,
                evs@ == events_upto(conf0, cnt0, snapshot@, t, p as int),
            decreases n - p,
        {
            let c = self.confirmed[p];
            let ct = self.count[p];
            let raw = snapshot[p];
            if raw != c {
                if ct + 1 >= t {
                    new_conf.push(raw);
                    new_cnt.push(0u16);
                    if raw {
                        evs.push(KeyEvent::Press(p));
                    } else {
                        evs.push(KeyEvent::Release(p));
                    }
                } else {
                    new_conf.push(c);
                    new_cnt.push(ct + 1);
                }
            } else {
                new_conf.push(c);
                new_cnt.push(0u16);
            }
            p += 1;
        }
        self.confirmed = new_conf;
        self.count = new_cnt;
        proof {
            assert(self.confirmed@ =~= db_step_confirmed(conf0, cnt0, snapshot@, t));
            assert(self.count@ =~= db_step_count(conf0, cnt0, snapshot@, t));
        }
        evs
    }
}

/// The confirmed bits after feeding a whole sequence of snapshots.
pub open spec fn run_conf(conf: Seq<bool>, cnt: Seq<u16>, snaps: Seq<Seq<bool>>, t: u16) -> Seq<
    bool,
>
    decreases snaps.len(),
{
    if snaps.len() == 0 {
        conf
    } else {
        db_step_confirmed(
            run_conf(conf, cnt, snaps.drop_last(), t),
            run_cnt(conf, cnt, snaps.drop_last(), t),
            snaps.last(),
            t,
        )
    }
}

/// The counters after feeding a whole sequence of snapshots.
pub open spec fn run_cnt(conf: Seq<bool>, cnt: Seq<u16>, snaps: Seq<Seq<bool>>, t: u16) -> Seq<
    u16,
>
    decreases snaps.len(),
{
    if snaps.len() == 0 {
        cnt
    } else {
        db_step_count(
            run_conf(conf, cnt, snaps.drop_last(), t),
            run_cnt(conf, cnt, snaps.drop_last(), t),
            snaps.last(),
            t,
        )
    }
}

/// Whether feeding `snaps` emits some event at position `p` at some step.
pub open spec fn run_emits_at(
    conf: Seq<bool>,
    cnt: Seq<u16>,
    snaps: Seq<Seq<bool>>,
    t: u16,
    p: int,
) -> bool
    decreases snaps.len(),
{
    if snaps.len() == 0 {
        false
    } else {
        run_emits_at(conf, cnt, snaps.drop_last(), t, p) || db_flips(
            run_conf(conf, cnt, snaps.drop_last(), t)[p],
            run_cnt(conf, cnt, snaps.drop_last(), t)[p],
            snaps.last()[p],
            t,
        )
    }
}

/// A run keeps the per-position state aligned.
pub proof fn lemma_run_len(conf: Seq<bool>, cnt: Seq<u16>, snaps: Seq<Seq<bool>>, t: u16)
    ensures
        run_conf(conf, cnt, snaps, t).len() == conf.len(),
        run_cnt(conf, cnt, snaps, t).len() == cnt.len(),
    decreases snaps.len(),
{
    if snaps.len() != 0 {
        lemma_run_len(conf, cnt, snaps.drop_last(), t);
    }
}

/// A counter grows by at most one per scan.
pub proof fn lemma_run_count_growth(
    conf: Seq<bool>,
    cnt: Seq<u16>,
    snaps: Seq<Seq<bool>>,
    t: u16,
    p: int,
)
    requires
        0 <= p < conf.len(),
        cnt.len() == conf.len(),
    ensures
        run_cnt(conf, cnt, snaps, t)[p] <= cnt[p] + snaps.len(),
    decreases snaps.len(),
{
    lemma_run_len(conf, cnt, snaps, t);
    if snaps.len() != 0 {
        lemma_run_count_growth(conf, cnt, snaps.drop_last(), t, p);
        lemma_run_len(conf, cnt, snaps.drop_last(), t);
    }
}

/// Any run of scans shorter than what the counter still needs to reach the
/// threshold emits no event at that position: transient glitches below the
/// threshold never produce an event.
pub proof fn lemma_no_event_below_threshold(
    conf: Seq<bool>,
    cnt: Seq<u16>,
    snaps: Seq<Seq<bool>>,
    t: u16,
    p: int,
)
    requires
        0 <= p < conf.len(),
        cnt.len() == conf.len(),
        cnt[p] + snaps.len() < t,
    ensures
        !run_emits_at(conf, cnt, snaps, t, p),
    decreases snaps.len(),
{
    if snaps.len() != 0 {
        lemma_no_event_below_threshold(conf, cnt, snaps.drop_last(), t, p);
        lemma_run_count_growth(conf, cnt, snaps.drop_last(), t, p);
        lemma_run_len(conf, cnt, snaps.drop_last(), t);
    }
}

/// A snapshot that agrees with every confirmed bit yields no event, leaves
/// the confirmed bits unchanged, and resets every counter; feeding it again
/// therefore yields no event either.
pub proof fn lemma_stable_snapshot(conf: Seq<bool>, cnt: Seq<u16>, snap: Seq<bool>, t: u16)
    requires
        cnt.len() == conf.len(),
        forall|p: int| 0 <= p < conf.len() ==> snap[p] == conf[p],
    ensures
        db_events(conf, cnt, snap, t).len() == 0,
        db_step_confirmed(conf, cnt, snap, t) == conf,
        db_step_count(conf, cnt, snap, t) == Seq::new(cnt.len(), |p: int| 0u16),
{
    lemma_events_upto_stable(conf, cnt, snap, t, conf.len() as int);
    assert(db_step_confirmed(conf, cnt, snap, t) =~= conf);
    assert(db_step_count(conf, cnt, snap, t) =~= Seq::new(cnt.len(), |p: int| 0u16));
}

proof fn lemma_events_upto_stable(conf: Seq<bool>, cnt: Seq<u16>, snap: Seq<bool>, t: u16, n: int)
    requires
        n <= conf.len(),
        forall|p: int| 0 <= p < conf.len() ==> snap[p] == conf[p],
    ensures
        events_upto(conf, cnt, snap, t, n).len() == 0,
    decreases n,
{
    if n > 0 {
        lemma_events_upto_stable(conf, cnt, snap, t, n - 1);
    }
}

/// An event at a position is emitted only at a scan whose raw bit disagrees
/// with the confirmed bit while the counter already stands at `t - 1`: the
/// scan is the `t`-th consecutive disagreeing one.
pub proof fn lemma_flip_needs_full_count(confirmed: bool, count: u16, raw: bool, t: u16)
    requires
        count < t,
        db_flips(confirmed, count, raw, t),
    ensures
        raw != confirmed,
        count == t - 1,
{
}

/// If a run's final counter stands at `c`, the last `c` scans all disagreed
/// with the confirmed bit, which did not change over them.
pub proof fn lemma_count_means_consecutive(
    conf: Seq<bool>,
    cnt: Seq<u16>,
    snaps: Seq<Seq<bool>>,
    t: u16,
    p: int,
    c: int,
)
    requires
        0 <= p < conf.len(),
        cnt.len() == conf.len(),
        cnt[p] == 0,
        run_cnt(conf, cnt, snaps, t)[p] == c,
        c > 0,
    ensures
        c <= snaps.len(),
        forall|j: int|
            snaps.len() - c <= j < snaps.len() ==> #[trigger] snaps[j][p] != run_conf(
                conf,
                cnt,
                snaps,
                t,
            )[p],
        forall|j: int|
            snaps.len() - c <= j < snaps.len() ==> run_conf(conf, cnt, snaps.take(j), t)[p]
                == run_conf(conf, cnt, snaps, t)[p],
    decreases snaps.len(),
{
    lemma_run_len(conf, cnt, snaps, t);
    let prev_conf = run_conf(conf, cnt, snaps.drop_last(), t);
    let prev_cnt = run_cnt(conf, cnt, snaps.drop_last(), t);
    lemma_run_len(conf, cnt, snaps.drop_last(), t);
    // c > 0 rules out the empty run.
    assert(snaps.len() > 0);
    // The last step incremented: it disagreed and did not flip.
    assert(run_cnt(conf, cnt, snaps, t)[p] == db_next_count(
        prev_conf[p],
        prev_cnt[p],
        snaps.last()[p],
        t,
    ));
    assert(snaps.last()[p] != prev_conf[p]);
    assert(prev_cnt[p] == c - 1);
    assert(run_conf(conf, cnt, snaps, t)[p] == prev_conf[p]);
    assert(snaps.take(snaps.len() - 1) =~= snaps.drop_last());
    if c == 1 {
        assert forall|j: int| snaps.len() - 1 <= j < snaps.len() implies #[trigger] snaps[j][p]
            != run_conf(conf, cnt, snaps, t)[p] by {
            assert(snaps[j] == snaps.last());
        }
    } else {
        lemma_count_means_consecutive(conf, cnt, snaps.drop_last(), t, p, c - 1);
        assert forall|j: int| snaps.len() - c <= j < snaps.len() implies #[trigger] snaps[j][p]
            != run_conf(conf, cnt, snaps, t)[p] by {
            if j < snaps.len() - 1 {
                assert(snaps.drop_last()[j] == snaps[j]);
            } else {
                assert(snaps[j] == snaps.last());
            }
        }
        assert forall|j: int| snaps.len() - c <= j < snaps.len() implies run_conf(
            conf,
            cnt,
            snaps.take(j),
            t,
        )[p] == run_conf(conf, cnt, snaps, t)[p] by {
            if j < snaps.len() {
                assert(snaps.drop_last().take(j) =~= snaps.take(j));
            }
        }
    }
}

/// An event at position `p` confirmed by scan `i` of a run that starts with a
/// reset counter comes only after `t` consecutive scans (`i + 1 - t ..= i`)
/// that all disagreed with the then-confirmed bit, which was stable over that
/// whole window.
pub proof fn lemma_event_needs_t_scans(
    conf: Seq<bool>,
    cnt: Seq<u16>,
    snaps: Seq<Seq<bool>>,
    t: u16,
    p: int,
    i: int,
)
    requires
        0 <= p < conf.len(),
        cnt.len() == conf.len(),
        cnt[p] == 0,
        t >= 1,
        0 <= i < snaps.len(),
        db_flips(
            run_conf(conf, cnt, snaps.take(i), t)[p],
            run_cnt(conf, cnt, snaps.take(i), t)[p],
            snaps[i][p],
            t,
        ),
        run_cnt(conf, cnt, snaps.take(i), t)[p] < t,
    ensures
        i + 1 >= t,
        forall|j: int|
            i + 1 - t <= j <= i ==> #[trigger] snaps[j][p] != run_conf(
                conf,
                cnt,
                snaps.take(i),
                t,
            )[p],
        forall|j: int|
            i + 1 - t <= j <= i ==> run_conf(conf, cnt, snaps.take(j), t)[p] == run_conf(
                conf,
                cnt,
                snaps.take(i),
                t,
            )[p],
{
    lemma_run_len(conf, cnt, snaps.take(i), t);
    let c = run_cnt(conf, cnt, snaps.take(i), t)[p];
    lemma_flip_needs_full_count(
        run_conf(conf, cnt, snaps.take(i), t)[p],
        run_cnt(conf, cnt, snaps.take(i), t)[p],
        snaps[i][p],
        t,
    );
    assert(c == t - 1);
    if c > 0 {
        lemma_count_means_consecutive(conf, cnt, snaps.take(i), t, p, c as int);
        assert forall|j: int| i + 1 - t <= j <= i implies #[trigger] snaps[j][p] != run_conf(
            conf,
            cnt,
            snaps.take(i),
            t,
        )[p] by {
            if j < i {
                assert(snaps.take(i)[j] == snaps[j]);
                assert(i - c <= j < i);
            }
        }
        assert forall|j: int| i + 1 - t <= j <= i implies run_conf(conf, cnt, snaps.take(j), t)[p]
            == run_conf(conf, cnt, snaps.take(i), t)[p] by {
            if j < i {
                assert(snaps.take(i).take(j) =~= snaps.take(j));
            }
        }
    }
}

} // verus!
