//! Walking a tape: every op moves the cursor and says what stands there.
use vstd::prelude::*;

use crate::acts::{copied, ActRef, ActView};
use crate::api_types::{
    Activation, ActivationFrame, ActivationView, BlockView, DayOut, DayView, ExactBlock, FrameView,
    SeriesOut, SeriesView, TopoNode, TopoView,
};
use crate::floats::{finite_slots, number_slots, only_finite, only_numbers, Bits};
use crate::keeping::climbing;
use crate::model::{fired, under, TapeView, TickView};
use crate::tape::{lemma_same_but_cost, nats, positions, ticks_under, Inner};
use crate::text::{clone_optional, clone_strings, contains, same, starts_with};

verus! {

/// The lesser of two.
pub open spec fn least(a: nat, b: nat) -> nat {
    if a <= b {
        a
    } else {
        b
    }
}

/// One less, but not below zero.
pub open spec fn back_one(a: nat) -> nat {
    if a == 0 {
        0
    } else {
        (a - 1) as nat
    }
}

/// The newest position at or before `p` on which node `i` fired.
pub open spec fn held_at(ticks: Seq<TickView>, i: int, p: int) -> Option<nat>
    decreases p + 1,
{
    if p < 0 {
        None
    } else if ticks[p].fires(i) {
        Some(p as nat)
    } else {
        held_at(ticks, i, p - 1)
    }
}

/// The newest position whose timestamp is at or before `ts_ns`.
pub open spec fn latest(ticks: Seq<TickView>, ts_ns: i64) -> Option<nat>
    decreases ticks.len(),
{
    if ticks.len() == 0 {
        None
    } else if ticks.last().ts_ns <= ts_ns {
        Some((ticks.len() - 1) as nat)
    } else {
        latest(ticks.drop_last(), ts_ns)
    }
}

/// A node a search looks at, and the output it does not stop on.
#[verifier::ext_equal]
pub struct WatchView {
    pub node: nat,
    pub was: Option<Seq<char>>,
}

/// A watched node fired with another output than the one it had.
pub open spec fn hit(t: TickView, ws: Seq<WatchView>) -> bool {
    exists|k: int| #![trigger ws[k]] 0 <= k < ws.len() && watch_hit(t, ws[k])
}

/// The watched node fired with another output than the one it had.
pub open spec fn watch_hit(t: TickView, w: WatchView) -> bool {
    fired(t.acts, w.node as int) && w.was != Some(t.acts[w.node as int].out)
}

/// The first position from `p` to `last` that is a hit.
pub open spec fn first_hit(ticks: Seq<TickView>, ws: Seq<WatchView>, p: nat, last: nat) -> Option<
    nat,
>
    decreases last + 1 - p,
{
    if p > last {
        None
    } else if hit(ticks[p as int], ws) {
        Some(p)
    } else {
        first_hit(ticks, ws, p + 1, last)
    }
}

/// The first node of that name.
pub open spec fn named_first(topology: Seq<TopoView>, node: Seq<char>, from: nat) -> Option<nat>
    decreases topology.len() - from,
{
    if from >= topology.len() {
        None
    } else if topology[from as int].node == node {
        Some(from)
    } else {
        named_first(topology, node, from + 1)
    }
}

/// The product of a shape.
pub open spec fn volume(dims: Seq<usize>) -> nat
    decreases dims.len(),
{
    if dims.len() == 0 {
        1
    } else {
        volume(dims.drop_last()) * dims.last() as nat
    }
}

/// What a buffer's name begins with.
pub open spec fn is_buffer(node: Seq<char>) -> bool {
    "Buffer<"@.is_prefix_of(node)
}

/// The series that are charted: a buffer's is its source's, element for element, and drawing it would
/// draw every buffered pane twice.
pub open spec fn panes(series: Seq<SeriesView>) -> Seq<SeriesView>
    decreases series.len(),
{
    if series.len() == 0 {
        Seq::empty()
    } else {
        let r = panes(series.drop_last());
        if is_buffer(series.last().node) {
            r
        } else {
            r.push(series.last())
        }
    }
}

/// What can be wrong with the price node.
#[derive(Clone, Copy, Debug, PartialEq, Eq)]
pub enum PriceFault {
    /// The node it names is no OHLCV bar.
    NotABar,
    /// It names no node in the graph.
    Unknown,
}

/// The first series of that name.
pub open spec fn series_first(series: Seq<SeriesView>, node: Seq<char>, from: nat) -> Option<nat>
    decreases series.len() - from,
{
    if from >= series.len() {
        None
    } else if series[from as int].node == node {
        Some(from)
    } else {
        series_first(series, node, from + 1)
    }
}

impl TapeView {
    /// Last addressable cursor. Until the recording is sealed the head is held one back: the recorder
    /// is still filling a tick past the newest absorbed one.
    pub open spec fn head(self) -> nat {
        if self.sealed {
            self.opened
        } else {
            back_one(self.opened)
        }
    }

    /// Last addressable position, `None` while the newest tick is the only one and still open.
    pub open spec fn last(self) -> Option<nat> {
        let n = if self.sealed {
            self.ticks.len()
        } else {
            back_one(self.ticks.len())
        };
        if n == 0 {
            None
        } else {
            Some((n - 1) as nat)
        }
    }

    /// What is addressable, as the tape of a recording that ended there: a total naming a tick that is
    /// not held would read as cut off mid-walk.
    pub open spec fn addressable(self) -> TapeView {
        TapeView {
            ticks: match self.last() {
                Some(l) => self.ticks.take(l as int + 1),
                None => Seq::empty(),
            },
            opened: self.head(),
            sealed: true,
            ..self
        }
    }

    /// The position a tick number names: the nearest retained tick at or below it.
    pub open spec fn nearest(self, tick: nat) -> nat {
        back_one(under(self.ticks, tick))
    }

    /// The position the cursor names.
    pub open spec fn pos(self) -> Option<nat> {
        match self.last() {
            Some(l) => Some(least(self.nearest(self.cursor), l)),
            None => None,
        }
    }

    /// The tape with the cursor on position `p`, or on the last addressable one before it.
    pub open spec fn parked(self, p: nat) -> TapeView {
        match self.last() {
            Some(l) => TapeView { cursor: self.ticks[least(p, l) as int].abs + 1, ..self },
            None => self,
        }
    }

    /// What node `i` shows at position `p`: its own act where it fired, else the newest before it that
    /// the index lists, where that one fired.
    pub open spec fn standing(self, i: int, p: nat) -> ActView {
        let a = self.ticks[p as int].acts[i];
        if a.vals is Some {
            a
        } else {
            match held_at(self.ticks, i, p as int) {
                Some(q) => if fired(self.ticks[q as int].acts, i) {
                    self.ticks[q as int].acts[i]
                } else {
                    a
                },
                None => a,
            }
        }
    }

    /// Node `i`'s activation at position `p`: a quiet node still holds its last value. A tape keeps one
    /// rendering per fire, so there is no detail past it.
    pub open spec fn activation(self, i: int, p: nat) -> ActivationView {
        let n = self.topology[i];
        let a = self.ticks[p as int].acts[i];
        let h = self.standing(i, p);
        ActivationView {
            node: n.node,
            deps: n.deps,
            gates: n.gates,
            out: h.out,
            detail: Seq::empty(),
            ran: a.ran,
            fired: a.vals is Some,
            dims: n.dims,
            vals: match h.vals {
                Some(v) => Some(finite_slots(v)),
                None => None,
            },
            jac: match a.jac {
                Some(j) => Some(number_slots(j)),
                None => None,
            },
            exact_block: match a.block {
                Some((c, w)) => Some(BlockView { cols: number_slots(c), widths: w }),
                None => None,
            },
            cost_ns: self.cost[i].ns,
            exact: a.exact,
        }
    }

    /// How many nodes have an activation at position `p`.
    pub open spec fn width(self, p: nat) -> nat {
        least(self.nodes(), self.ticks[p as int].acts.len())
    }

    /// How many ticks of the run position `p` stands for. At the buffer's front there is no previous
    /// retained tick, and it stands for everything from the start of the run.
    pub open spec fn gap(self, p: nat) -> nat {
        if p == 0 {
            self.ticks[0].abs + 1
        } else {
            (self.ticks[p as int].abs - self.ticks[p - 1].abs) as nat
        }
    }

    /// The frame the cursor stands on.
    pub open spec fn frame(self) -> FrameView {
        match self.pos() {
            Some(p) => FrameView {
                tick: self.ticks[p as int].abs + 1,
                total: self.head(),
                sealed: self.sealed,
                dropped: self.dropped,
                pending: false,
                found: true,
                gap: self.gap(p),
                ts_ns: self.ticks[p as int].ts_ns,
                activations: Seq::new(self.width(p), |i: int| self.activation(i, p)),
            },
            None => FrameView {
                tick: 0,
                total: self.head(),
                sealed: self.sealed,
                dropped: self.dropped,
                pending: false,
                found: true,
                gap: 1,
                ts_ns: 0,
                activations: Seq::empty(),
            },
        }
    }

    /// The position `n` retained ticks on.
    pub open spec fn step_target(self, n: nat) -> nat {
        match self.pos() {
            Some(p) => p + n,
            None => 0,
        }
    }

    /// The tape `n` retained ticks on.
    pub open spec fn stepped(self, n: nat) -> TapeView {
        self.parked(self.step_target(n))
    }

    /// The step ran out of recorded ticks that can still come.
    pub open spec fn step_pending(self, n: nat) -> bool {
        !self.sealed && match self.last() {
            Some(l) => self.step_target(n) > l,
            None => true,
        }
    }

    /// The tape at the nearest retained tick at or below `tick`.
    pub open spec fn sought(self, tick: nat) -> TapeView {
        self.parked(self.nearest(tick))
    }

    /// The tick asked for is past what is recorded so far.
    pub open spec fn seek_pending(self, tick: nat) -> bool {
        !self.sealed && tick > self.head()
    }

    /// The tape at the newest addressable tick at or before `ts_ns`, at its front where there is none.
    pub open spec fn sought_ts(self, ts_ns: i64) -> TapeView {
        self.parked(
            match latest(self.addressable().ticks, ts_ns) {
                Some(p) => p,
                None => 0,
            },
        )
    }

    /// The time asked for is past what is recorded so far.
    pub open spec fn seek_ts_pending(self, ts_ns: i64) -> bool {
        !self.sealed && self.ticks.len() > 0 && self.ticks.last().ts_ns < ts_ns
    }

    /// Where a search after the cursor first hits.
    pub open spec fn scan_hit(self, ws: Seq<WatchView>) -> Option<nat> {
        match (self.pos(), self.last()) {
            (Some(p), Some(l)) => first_hit(self.ticks, ws, p + 1, l),
            _ => None,
        }
    }

    /// The tape after a search. One that reaches the end of a sealed recording without a hit leaves
    /// the cursor alone; while the tape is still growing the end is where it will be resumed.
    pub open spec fn scanned(self, ws: Seq<WatchView>) -> TapeView {
        match self.scan_hit(ws) {
            Some(q) => self.parked(q),
            None => match self.last() {
                Some(l) => if self.sealed {
                    self
                } else {
                    self.parked(l)
                },
                None => self,
            },
        }
    }

    /// What a search answers.
    pub open spec fn scan_frame(self, ws: Seq<WatchView>) -> FrameView {
        FrameView {
            pending: !self.sealed && self.scan_hit(ws) is None,
            found: self.scan_hit(ws) is Some,
            ..self.scanned(ws).frame()
        }
    }

    /// What node `i` shows where the cursor stands, if anything.
    pub open spec fn out_now(self, i: nat) -> Option<Seq<char>> {
        match self.pos() {
            Some(p) => if i < self.width(p) {
                Some(self.standing(i as int, p).out)
            } else {
                None
            },
            None => None,
        }
    }

    /// Of the first `n` nodes, those named in `names`, each with what it shows now.
    pub open spec fn watching(self, names: Seq<Seq<char>>, n: nat) -> Seq<WatchView>
        decreases n,
    {
        if n == 0 {
            Seq::empty()
        } else {
            let r = self.watching(names, (n - 1) as nat);
            if names.contains(self.topology[n - 1].node) {
                r.push(WatchView { node: (n - 1) as nat, was: self.out_now((n - 1) as nat) })
            } else {
                r
            }
        }
    }

    /// The search for the next fire of the first node called `node`.
    pub open spec fn until(self, node: Seq<char>) -> Option<Seq<WatchView>> {
        match named_first(self.topology, node, 0) {
            Some(i) => Some(seq![WatchView { node: i, was: None }]),
            None => None,
        }
    }

    /// The topology a client is shown, costs stamped on: empty until the first tick is addressable.
    pub open spec fn outline(self) -> Seq<TopoView> {
        if self.head() < 1 {
            Seq::empty()
        } else {
            Seq::new(
                self.nodes(),
                |i: int| TopoView { cost_ns: self.cost[i].ns, ..self.topology[i] },
            )
        }
    }

    /// What is wrong with the price node, if anything: it is to be an OHLCV bar of the graph, but within
    /// the first tick it may not have been stepped yet.
    pub open spec fn price_fault(self) -> Option<PriceFault> {
        match self.price_node {
            Some(p) => match series_first(self.series, p, 0) {
                Some(k) => if volume(self.series[k as int].dims) == 5 {
                    None
                } else {
                    Some(PriceFault::NotABar)
                },
                None => if self.head() < 1 {
                    None
                } else {
                    Some(PriceFault::Unknown)
                },
            },
            None => None,
        }
    }

    /// Nothing is wrong with the price node.
    pub open spec fn price_node_ok(self) -> bool {
        self.price_fault() is None
    }

    /// The chart payload.
    pub open spec fn day_view(self) -> DayView {
        DayView { series: panes(self.series), price_node: self.price_node }
    }
}

/// A node a search looks at, and the output it does not stop on.
pub struct Watched {
    pub node: usize,
    pub was: Option<String>,
}

impl DeepView for Watched {
    type V = WatchView;

    open spec fn deep_view(&self) -> WatchView {
        WatchView { node: self.node as nat, was: self.was.deep_view() }
    }
}

/// Ids stay in order whatever the cursor does.
proof fn lemma_ticks(t: TapeView)
    requires
        t.ok(),
    ensures
        climbing(t.ticks),
{
    assert(t.climbs());
}

/// The listed positions of node `i` are those it fired on: each is one, they ascend, and none is
/// missing.
proof fn lemma_positions(ticks: Seq<TickView>, i: int)
    ensures
        forall|k: int|
            #![trigger positions(ticks, i)[k]]
            0 <= k < positions(ticks, i).len() ==> positions(ticks, i)[k] < ticks.len()
                && ticks[positions(ticks, i)[k] as int].fires(i),
        forall|k: int, m: int|
            #![trigger positions(ticks, i)[k], positions(ticks, i)[m]]
            0 <= k < m < positions(ticks, i).len() ==> positions(ticks, i)[k] < positions(
                ticks,
                i,
            )[m],
        forall|p: int|
            #![trigger ticks[p]]
            0 <= p < ticks.len() && ticks[p].fires(i) ==> positions(ticks, i).contains(p as nat),
    decreases ticks.len(),
{
    if ticks.len() > 0 {
        let d = ticks.drop_last();
        let r = positions(ticks, i);
        let s = positions(d, i);
        lemma_positions(d, i);
        assert forall|k: int| #![trigger r[k]] 0 <= k < r.len() implies r[k] < ticks.len()
            && ticks[r[k] as int].fires(i) by {
            if k < s.len() {
                assert(r[k] == s[k]);
                assert(d[s[k] as int] == ticks[s[k] as int]);
            }
        }
        assert forall|k: int, m: int| #![trigger r[k], r[m]] 0 <= k < m < r.len() implies r[k]
            < r[m] by {
            assert(r[k] == s[k]);
            if m < s.len() {
                assert(s[k] < s[m]);
            }
        }
        assert forall|p: int|
            #![trigger ticks[p]]
            0 <= p < ticks.len() && ticks[p].fires(i) implies r.contains(p as nat) by {
            if p < d.len() {
                assert(d[p] == ticks[p]);
                let k = choose|k: int| 0 <= k < s.len() && s[k] == p as nat;
                assert(r[k] == p as nat);
            } else {
                assert(r[r.len() - 1] == p as nat);
            }
        }
    }
}

/// The newest fire at or before `p` is the one position with that property.
proof fn lemma_held_at(ticks: Seq<TickView>, i: int, p: int, q: int)
    requires
        -1 <= q <= p < ticks.len(),
        q >= 0 ==> ticks[q].fires(i),
        forall|x: int| #![trigger ticks[x]] q < x <= p ==> !ticks[x].fires(i),
    ensures
        held_at(ticks, i, p) == if q >= 0 {
            Some(q as nat)
        } else {
            None
        },
    decreases p - q,
{
    if p > q {
        assert(!ticks[p].fires(i));
        lemma_held_at(ticks, i, p - 1, q);
    }
}

impl Inner {
    /// Last addressable cursor.
    pub(crate) fn head(&self) -> (r: usize)
        ensures
            r == self@.head(),
    {
        if self.sealed {
            self.opened
        } else {
            self.opened.saturating_sub(1)
        }
    }

    /// Last addressable position.
    pub(crate) fn last(&self) -> (r: Option<usize>)
        ensures
            match r {
                Some(l) => self@.last() == Some(l as nat) && l < self.ticks@.len() && l < usize::MAX,
                None => self@.last() is None,
            },
    {
        let n: usize = if self.sealed {
            self.ticks.len()
        } else {
            self.ticks.len().saturating_sub(1)
        };
        if n == 0 {
            None
        } else {
            Some(n - 1)
        }
    }

    /// The position a tick number names.
    fn nearest(&self, tick: usize) -> (r: usize)
        requires
            self.wf(),
        ensures
            r == self@.nearest(tick as nat),
    {
        proof {
            lemma_ticks(self@);
        }
        ticks_under(&self.ticks, tick).saturating_sub(1)
    }

    /// The position the cursor names.
    fn pos(&self) -> (r: Option<usize>)
        requires
            self.wf(),
        ensures
            match r {
                Some(p) => self@.pos() == Some(p as nat) && p < self.ticks@.len(),
                None => self@.pos() is None,
            },
    {
        match self.last() {
            Some(l) => {
                let p: usize = self.nearest(self.cursor);
                Some(
                    if p <= l {
                        p
                    } else {
                        l
                    },
                )
            },
            None => None,
        }
    }

    /// Parks the cursor on position `p`, clamped to what is addressable.
    fn park(&mut self, p: usize)
        requires
            old(self).wf(),
        ensures
            final(self).wf(),
            final(self)@ == old(self)@.parked(p as nat),
    {
        let ghost was = *self;
        match self.last() {
            Some(l) => {
                let at: usize = if p <= l {
                    p
                } else {
                    l
                };
                proof {
                    assert(self@.ticks[at as int].abs == self.ticks@[at as int].abs);
                    assert(self.ticks@[at as int].legible());
                }
                self.cursor = self.ticks[at].abs + 1;
                proof {
                    assert(self@ =~= was@.parked(p as nat));
                    lemma_same_but_cost(was@, self@);
                }
            },
            None => {},
        }
    }

    /// Node `i`'s newest act at or before position `p` that fired. Searched for in the index rather
    /// than back over the ticks: a frame asks this once per quiet node.
    fn held(&self, i: usize, p: usize) -> (r: Option<ActRef<'_>>)
        requires
            self.wf(),
            p < self.ticks@.len(),
        ensures
            match r {
                Some(a) => held_at(self@.ticks, i as int, p as int) matches Some(q) && fired(
                    self@.ticks[q as int].acts,
                    i as int,
                ) && a@ == self@.ticks[q as int].acts[i as int],
                None => held_at(self@.ticks, i as int, p as int) matches Some(q) ==> !fired(
                    self@.ticks[q as int].acts,
                    i as int,
                ),
            },
    {
        let ghost tv = self@.ticks;
        if i >= self.fired.len() {
            proof {
                assert forall|x: int| #![trigger tv[x]] -1 < x <= p implies !tv[x].fires(i as int) by {
                    assert(tv[x].ranks.len() <= self.fired@.len());
                }
                lemma_held_at(tv, i as int, p as int, -1);
            }
            return None;
        }
        let list: &Vec<usize> = &self.fired[i];
        let ghost ps = positions(tv, i as int);
        proof {
            assert(nats(self.fired@[i as int]@) == ps);
            lemma_positions(tv, i as int);
        }
        let mut lo: usize = 0;
        let mut hi: usize = list.len();
        while lo < hi
            invariant
                nats(list@) == ps,
                lo <= hi <= list@.len(),
                forall|k: int, m: int|
                    #![trigger ps[k], ps[m]]
                    0 <= k < m < ps.len() ==> ps[k] < ps[m],
                forall|k: int| #![trigger ps[k]] 0 <= k < lo ==> ps[k] <= p,
                forall|k: int| #![trigger ps[k]] hi <= k < ps.len() ==> ps[k] > p,
            decreases hi - lo,
        {
            let mid: usize = lo + (hi - lo) / 2;
            assert(ps[mid as int] == list@[mid as int]);
            if list[mid] <= p {
                assert forall|k: int| #![trigger ps[k]] 0 <= k <= mid implies ps[k] <= p by {
                    if k < mid {
                        assert(ps[k] < ps[mid as int]);
                    }
                }
                lo = mid + 1;
            } else {
                assert forall|k: int| #![trigger ps[k]] mid <= k < ps.len() implies ps[k] > p by {
                    if k > mid {
                        assert(ps[mid as int] < ps[k]);
                    }
                }
                hi = mid;
            }
        }
        if lo == 0 {
            proof {
                assert forall|x: int| #![trigger tv[x]] -1 < x <= p implies !tv[x].fires(i as int) by {
                    if tv[x].fires(i as int) {
                        let k = choose|k: int| 0 <= k < ps.len() && ps[k] == x as nat;
                        assert(ps[k] > p);
                    }
                }
                lemma_held_at(tv, i as int, p as int, -1);
            }
            return None;
        }
        let q: usize = list[lo - 1];
        proof {
            assert(ps[lo - 1] == q);
            assert(tv[q as int].fires(i as int));
            assert forall|x: int| #![trigger tv[x]] q < x <= p implies !tv[x].fires(i as int) by {
                if tv[x].fires(i as int) {
                    let k = choose|k: int| 0 <= k < ps.len() && ps[k] == x as nat;
                    if k < lo - 1 {
                        assert(ps[k] < ps[lo - 1]);
                    }
                    if k >= lo {
                        assert(ps[k] > p);
                    }
                }
            }
            lemma_held_at(tv, i as int, p as int, q as int);
            assert(self.ticks@[q as int].legible());
        }
        match self.ticks[q].acts.get(i) {
            Some(a) => match a.vals {
                Some(_) => Some(a),
                None => None,
            },
            None => None,
        }
    }

    /// What node `i` shows at position `p`, `None` where it did not report on that tick.
    fn standing(&self, i: usize, p: usize) -> (r: Option<ActRef<'_>>)
        requires
            self.wf(),
            p < self.ticks@.len(),
        ensures
            match r {
                Some(a) => i < self@.ticks[p as int].acts.len() && a@ == self@.standing(
                    i as int,
                    p as nat,
                ),
                None => i >= self@.ticks[p as int].acts.len(),
            },
    {
        proof {
            assert(self.ticks@[p as int].legible());
        }
        match self.ticks[p].acts.get(i) {
            Some(a) => {
                match a.vals {
                    Some(_) => Some(a),
                    None => match self.held(i, p) {
                        Some(h) => Some(h),
                        None => Some(a),
                    },
                }
            },
            None => None,
        }
    }

    /// Node `i`'s activation at position `p`, `None` where it did not report on that tick.
    fn activation(&self, i: usize, p: usize) -> (r: Option<Activation>)
        requires
            self.wf(),
            p < self.ticks@.len(),
            i < self@.nodes(),
        ensures
            match r {
                Some(a) => i < self@.ticks[p as int].acts.len() && a.deep_view()
                    == self@.activation(i as int, p as nat),
                None => i >= self@.ticks[p as int].acts.len(),
            },
    {
        proof {
            assert(self.ticks@[p as int].legible());
        }
        let h: ActRef<'_> = match self.standing(i, p) {
            Some(h) => h,
            None => {
                return None;
            },
        };
        let a: ActRef<'_> = match self.ticks[p].acts.get(i) {
            Some(a) => a,
            None => {
                return None;
            },
        };
        let n: &TopoNode = &self.topology[i];
        let dims: Vec<usize> = copied(n.dims.as_slice());
        proof {
            assert(dims.deep_view() =~= n.dims.deep_view());
            assert(self@.topology[i as int] == n.deep_view());
        }
        let vals: Option<Vec<Option<Bits>>> = match h.vals {
            Some(v) => Some(only_finite(v)),
            None => None,
        };
        let jac: Option<Vec<Option<Bits>>> = match a.jac {
            Some(j) => Some(only_numbers(j)),
            None => None,
        };
        let exact_block: Option<ExactBlock> = match a.block {
            Some((c, w)) => Some(ExactBlock { cols: only_numbers(c), widths: copied(w) }),
            None => None,
        };
        let fired: bool = match a.vals {
            Some(_) => true,
            None => false,
        };
        Some(
            Activation {
                node: n.node.clone(),
                deps: clone_strings(&n.deps),
                gates: clone_strings(&n.gates),
                out: h.out.to_owned(),
                detail: String::new(),
                ran: a.ran,
                fired,
                dims,
                vals,
                jac,
                exact_block,
                cost_ns: self.cost[i].ns,
                exact: a.exact,
            },
        )
    }

    /// Every node's activation at position `p`.
    fn activations(&self, p: usize) -> (r: Vec<Activation>)
        requires
            self.wf(),
            p < self.ticks@.len(),
        ensures
            r.deep_view() == Seq::new(
                self@.width(p as nat),
                |i: int| self@.activation(i, p as nat),
            ),
    {
        let mut out: Vec<Activation> = Vec::new();
        let mut i: usize = 0;
        while i < self.topology.len()
            invariant_except_break
                i <= self.ticks@[p as int].acts@.len(),
            invariant
                self.wf(),
                p < self.ticks@.len(),
                i <= self.topology@.len(),
                i <= self@.width(p as nat),
                out@.len() == i,
                forall|j: int|
                    #![trigger out@[j]]
                    0 <= j < i ==> out@[j].deep_view() == self@.activation(j, p as nat),
            ensures
                i == self@.width(p as nat),
            decreases self.topology@.len() - i,
        {
            match self.activation(i, p) {
                Some(a) => {
                    out.push(a);
                },
                None => {
                    break;
                },
            }
            i += 1;
        }
        assert(out.deep_view() =~= Seq::new(
            self@.width(p as nat),
            |i: int| self@.activation(i, p as nat),
        ));
        out
    }

    /// The frame the cursor stands on.
    pub fn frame(&self) -> (r: ActivationFrame)
        requires
            self.wf(),
        ensures
            r.deep_view() == self@.frame(),
    {
        match self.pos() {
            Some(p) => {
                proof {
                    assert(self@.climbs());
                    assert(self@.ticks[p as int].abs == self.ticks@[p as int].abs);
                    assert(self.ticks@[p as int].legible());
                    if p > 0 {
                        assert(self@.ticks[p - 1].abs < self@.ticks[p as int].abs);
                        assert(self@.ticks[p - 1].abs == self.ticks@[p - 1].abs);
                    }
                }
                let abs: usize = self.ticks[p].abs;
                let gap: usize = if p == 0 {
                    abs + 1
                } else {
                    abs - self.ticks[p - 1].abs
                };
                let r = ActivationFrame {
                    tick: abs + 1,
                    total: self.head(),
                    sealed: self.sealed,
                    dropped: self.dropped,
                    pending: false,
                    found: true,
                    gap,
                    ts_ns: self.ticks[p].ts_ns,
                    activations: self.activations(p),
                };
                assert(r.deep_view() =~= self@.frame());
                r
            },
            None => {
                let r = ActivationFrame {
                    tick: 0,
                    total: self.head(),
                    sealed: self.sealed,
                    dropped: self.dropped,
                    pending: false,
                    found: true,
                    gap: 1,
                    ts_ns: 0,
                    activations: Vec::new(),
                };
                assert(r.deep_view() =~= self@.frame());
                r
            },
        }
    }

    /// `n` retained ticks on, not `n` absolute ones: in a thinned stretch the ticks between two
    /// retained ones are gone, and stepping over them would stall the cursor.
    pub fn step(&mut self, n: usize) -> (r: ActivationFrame)
        requires
            old(self).wf(),
        ensures
            final(self).wf(),
            final(self)@ == old(self)@.stepped(n as nat),
            r.deep_view() == (FrameView {
                pending: old(self)@.step_pending(n as nat),
                ..old(self)@.stepped(n as nat).frame()
            }),
    {
        let ghost was = self@;
        let target: usize = match self.pos() {
            Some(p) => p.saturating_add(n),
            None => 0,
        };
        let last: Option<usize> = self.last();
        self.park(target);
        proof {
            assert(self@ == was.stepped(n as nat));
        }
        let mut f: ActivationFrame = self.frame();
        f.pending = !self.sealed && match last {
            Some(l) => target > l,
            None => true,
        };
        f
    }

    /// Goes to the nearest retained tick at or below `tick`.
    pub fn seek(&mut self, tick: usize) -> (r: ActivationFrame)
        requires
            old(self).wf(),
        ensures
            final(self).wf(),
            final(self)@ == old(self)@.sought(tick as nat),
            r.deep_view() == (FrameView {
                pending: old(self)@.seek_pending(tick as nat),
                ..old(self)@.sought(tick as nat).frame()
            }),
    {
        let p: usize = self.nearest(tick);
        self.park(p);
        let mut f: ActivationFrame = self.frame();
        f.pending = !self.sealed && tick > self.head();
        f
    }

    /// Goes to the newest tick at or before `ts_ns`, which is what a click on the chart's time axis
    /// names. A feed's timestamps are near-sorted but not guaranteed so, and a binary search would
    /// land off on the ones that weave; so would looking at the tick that is still open.
    pub fn seek_ts(&mut self, ts_ns: i64) -> (r: ActivationFrame)
        requires
            old(self).wf(),
        ensures
            final(self).wf(),
            final(self)@ == old(self)@.sought_ts(ts_ns),
            r.deep_view() == (FrameView {
                pending: old(self)@.seek_ts_pending(ts_ns),
                ..old(self)@.sought_ts(ts_ns).frame()
            }),
    {
        let ghost tv = self@.addressable().ticks;
        let mut n: usize = match self.last() {
            Some(l) => l + 1,
            None => 0,
        };
        proof {
            assert(tv.take(n as int) =~= tv);
        }
        while n > 0 && self.ticks[n - 1].ts_ns > ts_ns
            invariant
                n <= tv.len() <= self.ticks@.len(),
                tv == self.ticks.deep_view().take(tv.len() as int),
                latest(tv.take(n as int), ts_ns) == latest(tv, ts_ns),
            decreases n,
        {
            proof {
                assert(tv.take(n as int).drop_last() =~= tv.take(n - 1));
                assert(tv.take(n as int).last() == self.ticks@[n - 1].deep_view());
            }
            n -= 1;
        }
        proof {
            if n > 0 {
                assert(tv.take(n as int).last() == self.ticks@[n - 1].deep_view());
            }
        }
        let len: usize = self.ticks.len();
        let pending: bool = !self.sealed && len > 0 && self.ticks[len - 1].ts_ns < ts_ns;
        proof {
            if len > 0 {
                assert(self@.ticks.last() == self.ticks@[len - 1].deep_view());
            }
        }
        self.park(n.saturating_sub(1));
        let mut f: ActivationFrame = self.frame();
        f.pending = pending;
        f
    }

    /// Whether the tick at `p` is one the search stops on.
    fn hits(&self, p: usize, ws: &Vec<Watched>) -> (r: bool)
        requires
            self.wf(),
            p < self.ticks@.len(),
        ensures
            r == hit(self@.ticks[p as int], ws.deep_view()),
    {
        let ghost t = self@.ticks[p as int];
        proof {
            assert(self.ticks@[p as int].legible());
        }
        let mut k: usize = 0;
        while k < ws.len()
            invariant
                self.wf(),
                p < self.ticks@.len(),
                self.ticks@[p as int].acts.legible(),
                t == self.ticks@[p as int].deep_view(),
                k <= ws@.len(),
                forall|j: int|
                    #![trigger ws.deep_view()[j]]
                    0 <= j < k ==> !watch_hit(t, ws.deep_view()[j]),
            decreases ws@.len() - k,
        {
            let w: &Watched = &ws[k];
            assert(ws.deep_view()[k as int] == w.deep_view());
            let moved: bool = match self.ticks[p].acts.get(w.node) {
                Some(a) => match a.vals {
                    Some(_) => match &w.was {
                        Some(was) => !same(was.as_str(), a.out),
                        None => true,
                    },
                    None => false,
                },
                None => false,
            };
            if moved {
                assert(watch_hit(t, ws.deep_view()[k as int]));
                return true;
            }
            k += 1;
        }
        false
    }

    /// Advances to the first hit after the cursor.
    fn scan(&mut self, ws: &Vec<Watched>) -> (r: ActivationFrame)
        requires
            old(self).wf(),
        ensures
            final(self).wf(),
            final(self)@ == old(self)@.scanned(ws.deep_view()),
            r.deep_view() == old(self)@.scan_frame(ws.deep_view()),
    {
        let ghost was = self@;
        let ghost wv = ws.deep_view();
        let mut found: bool = false;
        match (self.pos(), self.last()) {
            (Some(p0), Some(last)) => {
                let mut p: usize = p0;
                while p < last && !found
                    invariant
                        self.wf(),
                        self@ == was,
                        wv == ws.deep_view(),
                        p0 <= p <= last < self.ticks@.len(),
                        found ==> first_hit(was.ticks, wv, (p0 + 1) as nat, last as nat) == Some(
                            p as nat,
                        ),
                        !found ==> first_hit(was.ticks, wv, (p0 + 1) as nat, last as nat)
                            == first_hit(was.ticks, wv, (p + 1) as nat, last as nat),
                    decreases last - p + if found {
                        0int
                    } else {
                        1int
                    },
                {
                    p += 1;
                    if self.hits(p, ws) {
                        found = true;
                    }
                }
                if found || !self.sealed {
                    self.park(p);
                }
            },
            _ => {},
        }
        proof {
            assert(found == (was.scan_hit(wv) is Some));
            assert(self@ == was.scanned(wv));
        }
        let mut f: ActivationFrame = self.frame();
        f.pending = !self.sealed && !found;
        f.found = found;
        f
    }

    /// Advances until the first node called `node` fires, or the recording ends. A name the graph does
    /// not carry is a search that reached nothing.
    pub fn step_until(&mut self, node: &str) -> (r: ActivationFrame)
        requires
            old(self).wf(),
        ensures
            final(self).wf(),
            match old(self)@.until(node@) {
                Some(ws) => final(self)@ == old(self)@.scanned(ws) && r.deep_view()
                    == old(self)@.scan_frame(ws),
                None => final(self)@ == old(self)@ && r.deep_view() == (FrameView {
                    found: false,
                    ..old(self)@.frame()
                }),
            },
    {
        let ghost was = self@;
        let mut i: usize = 0;
        while i < self.topology.len() && !same(self.topology[i].node.as_str(), node)
            invariant
                i <= self.topology@.len(),
                was == self@,
                named_first(was.topology, node@, 0) == named_first(
                    was.topology,
                    node@,
                    i as nat,
                ),
            decreases self.topology@.len() - i,
        {
            proof {
                assert(was.topology[i as int].node == self.topology@[i as int].node@);
            }
            i += 1;
        }
        if i < self.topology.len() {
            assert(was.topology[i as int].node == self.topology@[i as int].node@);
            let mut ws: Vec<Watched> = Vec::new();
            ws.push(Watched { node: i, was: None });
            assert(ws.deep_view() =~= seq![WatchView { node: i as nat, was: None }]);
            self.scan(&ws)
        } else {
            let mut f: ActivationFrame = self.frame();
            f.found = false;
            f
        }
    }

    /// Advances until any of `nodes` fires with another output than it shows at call time, so a node
    /// stuck on one value is skipped through to its next actual change.
    pub fn step_until_change(&mut self, nodes: &[String]) -> (r: ActivationFrame)
        requires
            old(self).wf(),
        ensures
            final(self).wf(),
            final(self)@ == old(self)@.scanned(
                old(self)@.watching(nodes.deep_view(), old(self)@.nodes()),
            ),
            r.deep_view() == old(self)@.scan_frame(
                old(self)@.watching(nodes.deep_view(), old(self)@.nodes()),
            ),
    {
        let ghost was = self@;
        let at: Option<usize> = self.pos();
        let mut ws: Vec<Watched> = Vec::new();
        let mut i: usize = 0;
        assert(ws.deep_view() =~= was.watching(nodes.deep_view(), 0));
        while i < self.topology.len()
            invariant
                self.wf(),
                self@ == was,
                i <= self.topology@.len(),
                match at {
                    Some(p) => was.pos() == Some(p as nat) && p < self.ticks@.len(),
                    None => was.pos() is None,
                },
                ws.deep_view() == was.watching(nodes.deep_view(), i as nat),
            decreases self.topology@.len() - i,
        {
            assert(was.topology[i as int].node == self.topology@[i as int].node@);
            if contains(nodes, self.topology[i].node.as_str()) {
                let out: Option<String> = match at {
                    Some(p) => match self.standing(i, p) {
                        Some(a) => Some(a.out.to_owned()),
                        None => None,
                    },
                    None => None,
                };
                let ghost before = ws.deep_view();
                ws.push(Watched { node: i, was: out });
                assert(ws.deep_view() =~= before.push(
                    WatchView { node: i as nat, was: was.out_now(i as nat) },
                ));
            }
            i += 1;
        }
        self.scan(&ws)
    }

    /// The graph as a client is shown it: empty until the first tick is addressable, so what a client
    /// sorts is a graph with a frame behind it. Costs are stamped on the way out.
    pub fn topology(&self) -> (r: Vec<TopoNode>)
        requires
            self.wf(),
        ensures
            r.deep_view() == self@.outline(),
    {
        let mut out: Vec<TopoNode> = Vec::new();
        if self.head() < 1 {
            assert(out.deep_view() =~= self@.outline());
            return out;
        }
        let mut i: usize = 0;
        while i < self.topology.len()
            invariant
                self.wf(),
                self@.head() >= 1,
                i <= self.topology@.len(),
                out@.len() == i,
                forall|j: int|
                    #![trigger out@[j]]
                    0 <= j < i ==> out@[j].deep_view() == self@.outline()[j],
            decreases self.topology@.len() - i,
        {
            let mut n: TopoNode = self.topology[i].clone();
            n.cost_ns = self.cost[i].ns;
            assert(n.deep_view() =~= self@.outline()[i as int]);
            out.push(n);
            i += 1;
        }
        assert(out.deep_view() =~= self@.outline());
        out
    }

    /// Whether the price node is an OHLCV bar of the graph.
    pub fn has_price_node(&self) -> (r: bool)
        requires
            self.wf(),
        ensures
            r == self@.price_node_ok(),
    {
        match self.price_node_fault() {
            Some(_) => false,
            None => true,
        }
    }

    /// What is wrong with the price node, if anything. A mistyped one would otherwise quietly draw no
    /// candles, and the chart reads the node it names positionally.
    pub fn price_node_fault(&self) -> (r: Option<PriceFault>)
        requires
            self.wf(),
        ensures
            r == self@.price_fault(),
    {
        match &self.price_node {
            Some(p) => {
                let ghost sv = self@.series;
                let mut i: usize = 0;
                while i < self.series.len() && !same(self.series[i].node.as_str(), p.as_str())
                    invariant
                        i <= self.series@.len(),
                        sv == self.series.deep_view(),
                        series_first(sv, p@, 0) == series_first(sv, p@, i as nat),
                    decreases self.series@.len() - i,
                {
                    assert(sv[i as int].node == self.series@[i as int].node@);
                    i += 1;
                }
                if i < self.series.len() {
                    assert(sv[i as int].node == self.series@[i as int].node@);
                    assert(self.series@[i as int].dims.deep_view() =~= self.series@[i as int].dims@);
                    if is_volume(&self.series[i].dims, 5) {
                        None
                    } else {
                        Some(PriceFault::NotABar)
                    }
                } else if self.head() < 1 {
                    None
                } else {
                    Some(PriceFault::Unknown)
                }
            },
            None => None,
        }
    }

    /// The chart payload.
    pub fn day(&self) -> (r: DayOut)
        requires
            self.wf(),
            self@.price_node_ok(),
        ensures
            r.deep_view() == self@.day_view(),
    {
        let ghost sv = self@.series;
        let mut series: Vec<SeriesOut> = Vec::new();
        let mut i: usize = 0;
        assert(series.deep_view() =~= panes(sv.take(0)));
        while i < self.series.len()
            invariant
                i <= self.series@.len(),
                sv == self.series.deep_view(),
                series.deep_view() == panes(sv.take(i as int)),
            decreases self.series@.len() - i,
        {
            let ghost before = series.deep_view();
            proof {
                assert(sv.take(i + 1).drop_last() =~= sv.take(i as int));
                assert(sv.take(i + 1).last() == self.series@[i as int].deep_view());
            }
            if !starts_with(self.series[i].node.as_str(), "Buffer<") {
                series.push(self.series[i].clone());
                assert(series.deep_view() =~= before.push(sv[i as int]));
            }
            i += 1;
        }
        assert(sv.take(i as int) =~= sv);
        DayOut { series, price_node: clone_optional(&self.price_node) }
    }
}

/// Whether a shape holds exactly `n` elements.
pub(crate) fn is_volume(dims: &Vec<usize>, n: usize) -> (r: bool)
    requires
        n > 0,
    ensures
        r == (volume(dims@) == n),
{
    let mut v: usize = 1;
    let mut i: usize = 0;
    while i < dims.len()
        invariant
            n > 0,
            i <= dims@.len(),
            v == volume(dims@.take(i as int)),
        decreases dims@.len() - i,
    {
        proof {
            assert(dims@.take(i + 1).drop_last() =~= dims@.take(i as int));
        }
        match v.checked_mul(dims[i]) {
            Some(w) => {
                v = w;
            },
            None => {
                proof {
                    lemma_volume_grows(dims@, i + 1, n as nat);
                }
                return false;
            },
        }
        i += 1;
    }
    assert(dims@.take(i as int) =~= dims@);
    v == n
}

/// Past a machine word a volume cannot come back to `n`: it grows, or it is zero.
proof fn lemma_volume_grows(dims: Seq<usize>, k: int, n: nat)
    requires
        0 <= k <= dims.len(),
        volume(dims.take(k)) > n,
        n > 0,
    ensures
        volume(dims) != n,
    decreases dims.len() - k,
{
    if k == dims.len() {
        assert(dims.take(k) =~= dims);
    } else {
        assert(dims.take(k + 1).drop_last() =~= dims.take(k));
        let v = volume(dims.take(k));
        let d = dims[k] as nat;
        if d == 0 {
            assert(v * d == 0) by (nonlinear_arith)
                requires
                    d == 0,
            ;
            lemma_volume_zero(dims, k + 1);
        } else {
            assert(v * d >= v) by (nonlinear_arith)
                requires
                    d >= 1,
            ;
            lemma_volume_grows(dims, k + 1, n);
        }
    }
}

/// A shape with an empty axis holds nothing.
pub proof fn lemma_volume_zero(dims: Seq<usize>, k: int)
    requires
        0 <= k <= dims.len(),
        volume(dims.take(k)) == 0,
    ensures
        volume(dims) == 0,
    decreases dims.len() - k,
{
    if k == dims.len() {
        assert(dims.take(k) =~= dims);
    } else {
        assert(dims.take(k + 1).drop_last() =~= dims.take(k));
        assert(volume(dims.take(k)) * (dims[k] as nat) == 0) by (nonlinear_arith)
            requires
                volume(dims.take(k)) == 0,
        ;
        lemma_volume_zero(dims, k + 1);
    }
}

} // verus!
