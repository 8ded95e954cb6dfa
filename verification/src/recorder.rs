//! The write side: the graph thread's whole share of a recording.
//!
//! A tick is opened, every node reports on it in step order, and the finished tick is handed over.
//! What the recorder keeps between ticks is the names it has seen, the identities it still owes, and
//! the buffers it reuses.
use vstd::prelude::*;

use crate::acts::{ActView, Acts, Report};
use crate::api_types::{BlockView, FidelityOut, FrameView, PlotOut, TopoView};
use crate::cost::{Clock, TICK_STRIDE};
use crate::floats::{finite_slots, number_slots};
use crate::keeping::{
    absorbing_keeps_a_tape, climbing, lemma_landed_sound, lemma_under,
    lemma_with_nodes,
};
use crate::model::{
    absorbed, fired, held_tick, kept, landed, open_to, rows, settled, under, whole, with_nodes,
    MetaView, MsgView, TapeView, TickView,
};
use crate::names::shown_name;
use crate::replay::{back_one, held_at, volume};
use crate::retention::lemma_newest_held;
use crate::tape::{lemma_same_but_cost, Meta, TickMsg};
use crate::text::same;
use crate::thinning::lemma_squeezed_len;
use crate::walking::parking_is_exact;

verus! {

/// Ticks the tape may lag by before the handoff is felt.
pub const QUEUE: usize = 1024;

/// What a full handoff queue means for the tick being recorded.
#[derive(Clone, Copy, Debug, PartialEq, Eq)]
pub enum Backpressure {
    /// Wait for room: a replay wants the whole tape, and its feed is not going anywhere.
    Block,
    /// Drop the tick and count it: a live fill must never wait on a study aid.
    Drop,
}

/// What a node says of itself and of this tick when it is stepped.
pub struct Fire<'a> {
    pub dims: &'static [usize],
    pub plots: &'a Vec<PlotOut>,
    pub clock_ms: Option<i64>,
    pub fidelity: &'a FidelityOut,
    pub deriv: &'a Option<String>,
    pub report: Report<'a>,
}

/// Why a report cannot be recorded.
#[derive(Clone, Copy, Debug, PartialEq, Eq)]
pub enum Refusal {
    /// Another node was stepped at this place before.
    Shifted,
    /// The node flattens to nothing, so its fires could not be told from its silence.
    Flat,
    /// The Jacobian ran and came back empty.
    EmptyJacobian,
    /// The tick's columns would outgrow the width their ends are stored in.
    Overlong,
}

/// The write side of a recording.
pub struct Recorder {
    pub mode: Backpressure,
    /// The stepped nodes' names, positional; its length says which node is new and still owes its
    /// identity.
    pub raw: Vec<&'static str>,
    /// Nodes stepped for the first time, held until the tick they appeared on is handed over.
    pub meta: Option<Vec<Meta>>,
    pub acts: Acts,
    pub spans: Vec<u64>,
    /// Step-order span clock.
    pub clock: Clock,
    pub opened: usize,
    /// Ticks that found the handoff full.
    pub dropped: usize,
    pub ts_ns: i64,
    /// Per-tick step counter: step order is identical every tick, so it doubles as node id.
    pub idx: usize,
    /// Whether this tick is clocked.
    pub timed: bool,
}

/// What a [`Recorder`] holds.
#[verifier::ext_equal]
pub struct RecorderView {
    pub mode: Backpressure,
    pub raw: Seq<Seq<char>>,
    pub meta: Seq<MetaView>,
    pub acts: Seq<ActView>,
    pub spans: Seq<u64>,
    pub clock_ns: u64,
    pub opened: nat,
    pub dropped: nat,
    pub ts_ns: i64,
    pub idx: nat,
    pub timed: bool,
}

/// The identities an optional list holds.
pub open spec fn owed(meta: Option<Vec<Meta>>) -> Seq<MetaView> {
    match meta {
        Some(m) => m.deep_view(),
        None => Seq::empty(),
    }
}

impl View for Recorder {
    type V = RecorderView;

    open spec fn view(&self) -> RecorderView {
        RecorderView {
            mode: self.mode,
            raw: self.raw.deep_view(),
            meta: owed(self.meta),
            acts: self.acts@,
            spans: self.spans@,
            clock_ns: self.clock.at_ns,
            opened: self.opened as nat,
            dropped: self.dropped as nat,
            ts_ns: self.ts_ns,
            idx: self.idx as nat,
            timed: self.timed,
        }
    }
}

impl<'a> Fire<'a> {
    /// The identity the node has by this fire.
    pub open spec fn meta(self, node: Seq<char>, deps: Seq<Seq<char>>, gates: Seq<bool>) -> MetaView {
        MetaView {
            node,
            deps,
            gates,
            dims: self.dims@,
            plots: self.plots.deep_view(),
            clock_ms: self.clock_ms,
            fidelity: self.fidelity.deep_view(),
            deriv: self.deriv.deep_view(),
        }
    }

    /// The Jacobian ran and came back empty.
    pub open spec fn hollow(self) -> bool {
        self.report.jac matches Some(j) && j@.len() == 0
    }
}

/// The span between two readings of the clock; a clock that ran backwards reads zero.
pub open spec fn span_ns(from: u64, to: u64) -> u64 {
    if to >= from {
        (to - from) as u64
    } else {
        0
    }
}

impl RecorderView {
    /// Before the first tick.
    pub open spec fn fresh(mode: Backpressure, now_ns: u64) -> RecorderView {
        RecorderView {
            mode,
            raw: Seq::empty(),
            meta: Seq::empty(),
            acts: Seq::empty(),
            spans: Seq::empty(),
            clock_ns: now_ns,
            opened: 0,
            dropped: 0,
            ts_ns: 0,
            idx: 0,
            timed: false,
        }
    }

    /// One report per node that has reported on this tick.
    pub open spec fn even(self) -> bool {
        &&& self.idx == self.acts.len()
        &&& self.idx <= self.raw.len()
        &&& self.dropped <= self.opened
    }

    /// A tick is opened: it is clocked where its turn has come, and then the sweep's clock starts.
    pub open spec fn opening(self, ts_ns: i64, now_ns: u64) -> RecorderView {
        let timed = self.opened % (TICK_STRIDE as nat) == 0;
        RecorderView {
            ts_ns,
            idx: 0,
            timed,
            opened: self.opened + 1,
            acts: Seq::empty(),
            spans: if timed {
                Seq::empty()
            } else {
                self.spans
            },
            clock_ns: if timed {
                now_ns
            } else {
                self.clock_ns
            },
            ..self
        }
    }

    /// The next report is a node's first.
    pub open spec fn unmet(self) -> bool {
        self.raw.len() == self.idx
    }

    /// A node reported: its identity is owed where it is new, its span is closed before its report is
    /// written, and its act is appended.
    pub open spec fn reported(self, meta: MetaView, act: ActView, entry_ns: u64) -> RecorderView {
        RecorderView {
            idx: self.idx + 1,
            raw: if self.unmet() {
                self.raw.push(meta.node)
            } else {
                self.raw
            },
            meta: if self.unmet() {
                self.meta.push(meta)
            } else {
                self.meta
            },
            spans: if self.timed {
                self.spans.push(span_ns(self.clock_ns, entry_ns))
            } else {
                self.spans
            },
            clock_ns: if self.timed {
                entry_ns
            } else {
                self.clock_ns
            },
            acts: self.acts.push(act),
            ..self
        }
    }

    /// The finished tick.
    pub open spec fn message(self) -> MsgView {
        MsgView {
            ts_ns: self.ts_ns,
            acts: self.acts,
            meta: self.meta,
            spans: if self.timed {
                Some(self.spans)
            } else {
                None
            },
        }
    }

    /// The tick is on its way: neither its acts nor the identities it carries are held any more.
    pub open spec fn handed_over(self) -> RecorderView {
        RecorderView { acts: Seq::empty(), meta: Seq::empty(), idx: 0, ..self }
    }

    /// The handoff was full: the tick is counted, and the identities it carried are still owed.
    pub open spec fn refused(self, msg: MsgView) -> RecorderView {
        RecorderView {
            dropped: self.dropped + 1,
            acts: msg.acts,
            meta: msg.meta,
            idx: msg.acts.len(),
            ..self
        }
    }
}

impl Recorder {
    /// The columns agree and there is one report per node that has reported.
    pub open spec fn wf(self) -> bool {
        self.acts.wf() && self@.even()
    }

    /// Why `fire` of `node` cannot be recorded here, if it cannot.
    pub open spec fn refusal(self, node: Seq<char>, fire: Fire<'_>) -> Option<Refusal> {
        if !self@.unmet() && self@.raw[self@.idx as int] != node {
            Some(Refusal::Shifted)
        } else if volume(fire.dims@) == 0 {
            Some(Refusal::Flat)
        } else if fire.hollow() {
            Some(Refusal::EmptyJacobian)
        } else if !self.acts.room(fire.report) {
            Some(Refusal::Overlong)
        } else {
            None
        }
    }

    /// A recorder, its clock started at `now_ns`.
    pub fn new(mode: Backpressure, now_ns: u64) -> (r: Recorder)
        ensures
            r.wf(),
            r@ == RecorderView::fresh(mode, now_ns),
    {
        let r = Recorder {
            mode,
            raw: Vec::new(),
            meta: None,
            acts: Acts::new(),
            spans: Vec::new(),
            clock: Clock::new(now_ns),
            opened: 0,
            dropped: 0,
            ts_ns: 0,
            idx: 0,
            timed: false,
        };
        assert(r@ =~= RecorderView::fresh(mode, now_ns));
        r
    }

    /// Whether the recorder has no buffer of its own to fill: a refused tick leaves it one, and asking
    /// for another would drain the way back for nothing.
    pub fn wants_buffer(&self) -> (r: bool)
        ensures
            r == (self@.acts.len() == 0),
    {
        self.acts.len() == 0
    }

    /// Whether the next tick to be opened is clocked.
    pub fn clocks_next(&self) -> (r: bool)
        ensures
            r == (self@.opened % (TICK_STRIDE as nat) == 0),
    {
        self.opened % TICK_STRIDE == 0
    }

    /// Opens a tick at `ts_ns`, on a buffer coming back from the tape where there is one.
    pub fn at(&mut self, ts_ns: i64, now_ns: u64, spare: Option<Acts>)
        requires
            old(self).wf(),
            old(self).opened < usize::MAX,
        ensures
            final(self).wf(),
            final(self)@ == old(self)@.opening(ts_ns, now_ns),
    {
        let ghost was = self@;
        self.ts_ns = ts_ns;
        self.idx = 0;
        self.timed = self.opened % TICK_STRIDE == 0;
        self.opened = self.opened + 1;
        if self.acts.len() == 0 {
            match spare {
                Some(buffer) => {
                    self.acts = buffer;
                },
                None => {},
            }
        }
        self.acts.clear();
        if self.timed {
            self.spans.clear();
            // The sweep has not started, so the span the first node will close begins here.
            self.clock.mark(now_ns);
        }
        assert(self@ =~= was.opening(ts_ns, now_ns));
    }

    /// Whether the next report is a node's first.
    pub fn is_unmet(&self) -> (r: bool)
        ensures
            r == self@.unmet(),
    {
        self.raw.len() == self.idx
    }

    /// Why `fire` of `node` cannot be recorded here, if it cannot.
    pub fn check(&self, node: &'static str, fire: &Fire<'_>) -> (r: Option<Refusal>)
        requires
            self.wf(),
        ensures
            r == self.refusal(node@, *fire),
    {
        if self.idx < self.raw.len() {
            assert(self@.raw[self.idx as int] == self.raw@[self.idx as int]@);
            if !same(self.raw[self.idx], node) {
                return Some(Refusal::Shifted);
            }
        }
        if is_flat(fire.dims) {
            return Some(Refusal::Flat);
        }
        match fire.report.jac {
            Some(j) => {
                if j.len() == 0 {
                    return Some(Refusal::EmptyJacobian);
                }
            },
            None => {},
        }
        if !self.acts.has_room(&fire.report) {
            return Some(Refusal::Overlong);
        }
        None
    }

    /// Records one node's report. `entry_ns` is read on a clocked tick only; what it closes is the
    /// node's step and not the recording of it.
    pub fn on(
        &mut self,
        node: &'static str,
        deps: &'static [&'static str],
        gates: &'static [bool],
        fire: &Fire<'_>,
        entry_ns: u64,
    )
        requires
            old(self).wf(),
            old(self).idx < usize::MAX,
            old(self).refusal(node@, *fire) is None,
        ensures
            final(self).wf(),
            final(self)@ == old(self)@.reported(
                fire.meta(node@, deps.deep_view(), gates@),
                fire.report.act(),
                entry_ns,
            ),
    {
        let ghost was = self@;
        let ghost mv = fire.meta(node@, deps.deep_view(), gates@);
        let i: usize = self.idx;
        self.idx = self.idx + 1;
        if self.raw.len() == i {
            self.raw.push(node);
            let plots: Vec<PlotOut> = fire.plots.clone();
            assert(plots.deep_view() =~= fire.plots.deep_view());
            let m = Meta {
                node,
                deps,
                gates,
                dims: fire.dims,
                plots,
                clock_ms: fire.clock_ms,
                fidelity: fire.fidelity.clone(),
                deriv: crate::text::clone_optional(fire.deriv),
            };
            assert(m.deep_view() =~= mv);
            let mut list: Vec<Meta> = match self.meta.take() {
                Some(list) => list,
                None => Vec::new(),
            };
            assert(list.deep_view() =~= was.meta);
            list.push(m);
            assert(list.deep_view() =~= was.meta.push(mv));
            self.meta = Some(list);
            assert(self.raw.deep_view() =~= was.raw.push(node@));
        }
        if self.timed {
            let ns: u64 = self.clock.mark(entry_ns);
            self.spans.push(ns);
        }
        self.acts.push(&fire.report);
        assert(self@ =~= was.reported(mv, fire.report.act(), entry_ns));
    }

    /// Closes a report, so the recording's own work is not charged to the next node.
    pub fn settle(&mut self, exit_ns: u64)
        requires
            old(self).wf(),
        ensures
            final(self).wf(),
            final(self)@ == if old(self)@.timed {
                RecorderView { clock_ns: exit_ns, ..old(self)@ }
            } else {
                old(self)@
            },
    {
        if self.timed {
            self.clock.mark(exit_ns);
        }
    }

    /// Finishes the tick: every node that was stepped has reported on it.
    pub fn finish(&mut self) -> (msg: TickMsg)
        requires
            old(self).wf(),
        ensures
            msg.acts.wf(),
            msg.acts.legible(),
            msg@ == old(self)@.message(),
            final(self).wf(),
            final(self)@ == old(self)@.handed_over(),
    {
        let ghost was = self@;
        let mut acts: Acts = Acts::new();
        std::mem::swap(&mut acts, &mut self.acts);
        let meta: Option<Vec<Meta>> = self.meta.take();
        self.idx = 0;
        let spans: Option<Vec<u64>> = if self.timed {
            let copy: Vec<u64> = self.spans.clone();
            assert(copy@ =~= self.spans@);
            Some(copy)
        } else {
            None
        };
        let msg = TickMsg { ts_ns: self.ts_ns, acts, meta, spans };
        proof {
            crate::acts::lemma_legible(msg.acts);
        }
        assert(msg@ =~= was.message());
        assert(self@ =~= was.handed_over());
        msg
    }

    /// Takes back a tick the handoff had no room for. It is kept, not discarded: the buffers are this
    /// recorder's to reuse on the next one, and the identities are the only copy there will ever be.
    pub fn refuse(&mut self, msg: TickMsg)
        requires
            old(self).wf(),
            msg.acts.wf(),
            msg@.acts.len() <= old(self)@.raw.len(),
            old(self).dropped < old(self).opened,
        ensures
            final(self).wf(),
            final(self)@ == old(self)@.refused(msg@),
    {
        let ghost was = self@;
        let ghost mv = msg@;
        let TickMsg { ts_ns: _, acts, meta, spans: _ } = msg;
        self.dropped = self.dropped + 1;
        self.idx = acts.len();
        self.acts = acts;
        self.meta = meta;
        assert(self@ =~= was.refused(mv));
    }
}

/// Whether a shape holds no element.
fn is_flat(dims: &[usize]) -> (r: bool)
    ensures
        r == (volume(dims@) == 0),
{
    let mut i: usize = 0;
    while i < dims.len()
        invariant
            i <= dims@.len(),
            volume(dims@.take(i as int)) > 0,
        decreases dims@.len() - i,
    {
        proof {
            assert(dims@.take(i + 1).drop_last() =~= dims@.take(i as int));
        }
        if dims[i] == 0 {
            proof {
                assert(volume(dims@.take(i as int)) * (dims@[i as int] as nat) == 0)
                    by (nonlinear_arith)
                    requires
                        dims@[i as int] == 0,
                ;
                crate::replay::lemma_volume_zero(dims@, i + 1);
            }
            return true;
        }
        proof {
            assert(volume(dims@.take(i as int)) * (dims@[i as int] as nat) > 0)
                by (nonlinear_arith)
                requires
                    dims@[i as int] > 0,
                    volume(dims@.take(i as int)) > 0,
            ;
        }
        i += 1;
    }
    assert(dims@.take(i as int) =~= dims@);
    false
}

/// The recorder and the tape know of the same nodes: what the tape does not know yet is still owed.
pub open spec fn in_step(r: RecorderView, t: TapeView) -> bool {
    t.nodes() + r.meta.len() == r.raw.len()
}

/// Opening and reporting keep recorder and tape in step.
pub proof fn reporting_keeps_in_step(
    r: RecorderView,
    t: TapeView,
    ts_ns: i64,
    now_ns: u64,
    meta: MetaView,
    act: ActView,
)
    requires
        in_step(r, t),
    ensures
        in_step(r.opening(ts_ns, now_ns), t),
        in_step(r.reported(meta, act, now_ns), t),
{
}

/// A tick that lands takes the identities it carries to the tape.
pub proof fn landing_keeps_in_step(r: RecorderView, t: TapeView)
    requires
        t.even(),
        in_step(r, t),
    ensures
        in_step(r.handed_over(), absorbed(t, r.message())),
{
    lemma_with_nodes(t, r.meta);
}

/// A tick that does not land loses nothing but itself: the next one carries the identities it did.
pub proof fn a_refused_tick_loses_no_identity(r: RecorderView, t: TapeView)
    requires
        in_step(r, t),
    ensures
        in_step(r.handed_over().refused(r.message()), t),
        r.handed_over().refused(r.message()).meta == r.meta,
        r.handed_over().refused(r.message()).dropped == r.dropped + 1,
{
}

/// Recorder and tape agree on who is who: the tape shows each node it knows under the name it was
/// stepped by, and the identities still owed are those of the nodes stepped after them, in step order.
pub open spec fn named(r: RecorderView, t: TapeView) -> bool {
    &&& in_step(r, t)
    &&& forall|j: int|
        #![trigger t.topology[j]]
        0 <= j < t.nodes() ==> t.topology[j].node == shown_name(r.raw[j])
    &&& forall|k: int|
        #![trigger r.meta[k]]
        0 <= k < r.meta.len() ==> r.meta[k].node == r.raw[t.nodes() + k]
}

/// A recorder that has seen nothing and a tape that knows of nothing agree.
pub proof fn a_fresh_recorder_knows_no_names(mode: Backpressure, now_ns: u64, t: TapeView)
    requires
        t.nodes() == 0,
    ensures
        named(RecorderView::fresh(mode, now_ns), t),
{
}

/// Opening a tick and reporting on it keep recorder and tape agreed on the names.
pub proof fn reporting_keeps_the_names(
    r: RecorderView,
    t: TapeView,
    ts_ns: i64,
    now_ns: u64,
    meta: MetaView,
    act: ActView,
)
    requires
        named(r, t),
    ensures
        named(r.opening(ts_ns, now_ns), t),
        named(r.reported(meta, act, now_ns), t),
        named(r.settled(now_ns), t),
{
    let open = r.opening(ts_ns, now_ns);
    let told = r.reported(meta, act, now_ns);
    assert forall|k: int| #![trigger open.meta[k]] 0 <= k < open.meta.len() implies open.meta[k].node
        == open.raw[t.nodes() + k] by {
        assert(r.meta[k].node == r.raw[t.nodes() + k]);
    }
    assert forall|k: int| #![trigger told.meta[k]] 0 <= k < told.meta.len() implies told.meta[k].node
        == told.raw[t.nodes() + k] by {
        if k < r.meta.len() {
            assert(r.meta[k].node == r.raw[t.nodes() + k]);
        }
    }
}

/// A tick that lands takes its nodes to the tape under their names.
pub proof fn landing_keeps_the_names(r: RecorderView, t: TapeView)
    requires
        t.even(),
        named(r, t),
    ensures
        named(r.handed_over(), absorbed(t, r.message())),
{
    let z = absorbed(t, r.message());
    lemma_with_nodes(t, r.meta);
    assert forall|j: int| #![trigger z.topology[j]] 0 <= j < z.nodes() implies z.topology[j].node
        == shown_name(r.raw[j]) by {
        let a = with_nodes(t, r.meta);
        assert(z.topology[j] == a.topology[j]);
        if j < t.nodes() {
            assert(t.topology[j].node == shown_name(r.raw[j]));
        } else {
            assert(r.meta[j - t.nodes()].node == r.raw[j]);
        }
    }
}

/// A tick that does not land takes no name with it.
pub proof fn refusing_keeps_the_names(r: RecorderView, t: TapeView)
    requires
        named(r, t),
    ensures
        named(r.handed_over().refused(r.message()), t),
{
    let back = r.handed_over().refused(r.message());
    assert forall|k: int| #![trigger back.meta[k]] 0 <= k < back.meta.len() implies back.meta[k].node
        == back.raw[t.nodes() + k] by {
        assert(r.meta[k].node == r.raw[t.nodes() + k]);
    }
}

/// The frame of the tick that just landed, read once the recording is over.
pub open spec fn read_back(t: TapeView, msg: MsgView) -> FrameView {
    let z = TapeView { sealed: true, ..absorbed(t, msg) };
    z.parked(back_one(z.ticks.len())).frame()
}

/// What is read back of a tick that just landed stands at its position.
proof fn lemma_read_back(r: RecorderView, t: TapeView)
    requires
        r.even(),
        t.ok(),
        in_step(r, t),
        open_to(t, r.message()),
        t.opened < 0x1_0000_0000_0000_0000,
    ensures
        ({
            let u = absorbed(t, r.message());
            let z = TapeView { sealed: true, ..u };
            let p = back_one(u.ticks.len());
            let s = z.parked(p);
            &&& u.ok()
            &&& u.ticks.len() > 0
            &&& u.ticks[p as int] == held_tick(t, r.message())
            &&& s.pos() == Some(p)
            &&& s.width(p) == r.acts.len()
            &&& read_back(t, r.message()).tick == t.opened + 1
            &&& read_back(t, r.message()).activations.len() == r.acts.len()
            &&& forall|i: int|
                #![trigger read_back(t, r.message()).activations[i]]
                0 <= i < r.acts.len() ==> read_back(t, r.message()).activations[i] == s.activation(
                    i,
                    p,
                )
        }),
{
    let msg = r.message();
    let u = absorbed(t, msg);
    let z = TapeView { sealed: true, ..u };
    absorbing_keeps_a_tape(t, msg);
    lemma_newest_held(t, msg);
    lemma_with_nodes(t, msg.meta);
    assert forall|j: int| #![trigger z.cost[j]] 0 <= j < z.cost.len() implies z.cost[j].wf() by {
        assert(u.cost[j].wf());
    }
    lemma_same_but_cost(u, z);
    parking_is_exact(z, back_one(z.ticks.len()));
}

/// What a node reports is what the tape hands back: after any tick that lands, the newest frame is that
/// tick's, it has one activation per report, in step order, under the name the node was stepped by, and
/// each says what was reported; where the node fired, its rendering and its values are this fire's.
pub proof fn a_report_reads_back(r: RecorderView, t: TapeView, i: int)
    requires
        r.even(),
        t.ok(),
        named(r, t),
        open_to(t, r.message()),
        t.opened < 0x1_0000_0000_0000_0000,
        0 <= i < r.acts.len(),
    ensures
        ({
            let f = read_back(t, r.message());
            let a = r.acts[i];
            &&& f.tick == t.opened + 1
            &&& f.ts_ns == r.ts_ns
            &&& f.activations.len() == r.acts.len()
            &&& f.activations[i].node == shown_name(r.raw[i])
            &&& f.activations[i].fired == (a.vals is Some)
            &&& f.activations[i].ran == a.ran
            &&& f.activations[i].exact == a.exact
            &&& f.activations[i].jac == match a.jac {
                Some(j) => Some(number_slots(j)),
                None => None,
            }
            &&& f.activations[i].exact_block == match a.block {
                Some((c, w)) => Some(BlockView { cols: number_slots(c), widths: w }),
                None => None,
            }
            &&& a.vals matches Some(v) ==> f.activations[i].out == a.out && f.activations[i].vals
                == Some(finite_slots(v))
        }),
{
    let u = absorbed(t, r.message());
    lemma_read_back(r, t);
    landing_keeps_the_names(r, t);
    assert(u.topology[i].node == shown_name(r.raw[i]));
}

/// What the newest frame shows of a node that just reported, without asking for its name.
pub proof fn lemma_shown(r: RecorderView, t: TapeView, i: int)
    requires
        r.even(),
        t.ok(),
        in_step(r, t),
        open_to(t, r.message()),
        t.opened < 0x1_0000_0000_0000_0000,
        0 <= i < r.acts.len(),
    ensures
        read_back(t, r.message()).activations[i].jac == match r.acts[i].jac {
            Some(j) => Some(number_slots(j)),
            None => None,
        },
        read_back(t, r.message()).activations[i].exact_block == match r.acts[i].block {
            Some((c, w)) => Some(BlockView { cols: number_slots(c), widths: w }),
            None => None,
        },
        read_back(t, r.message()).activations[i].detail.len() == 0,
{
    lemma_read_back(r, t);
}

/// Two messages that differ in node `j`'s report alone leave ticks that differ in the newest alone: a
/// pass looks at nothing the tick that fills the buffer says.
proof fn lemma_ticks_differ_last(t: TapeView, a: MsgView, b: MsgView)
    requires
        t.ok(),
        open_to(t, a),
        t.opened < 0x1_0000_0000_0000_0000,
        b == (MsgView { acts: b.acts, ..a }),
    ensures
        absorbed(t, a).ticks.len() > 0,
        absorbed(t, a).ticks.drop_last() == absorbed(t, b).ticks.drop_last(),
        absorbed(t, a).ticks.len() == absorbed(t, b).ticks.len(),
{
    let x = landed(t, a);
    let y = landed(t, b);
    lemma_landed_sound(t, a);
    lemma_landed_sound(t, b);
    lemma_newest_held(t, a);
    lemma_newest_held(t, b);
    lemma_with_nodes(t, a.meta);
    assert(x.ticks.drop_last() =~= t.ticks);
    assert(y.ticks.drop_last() =~= t.ticks);
    if x.ticks.len() == x.capacity {
        let w = whole(x);
        assert(x.ordered());
        assert(y.ordered());
        lemma_under(x.ticks, w);
        lemma_under(y.ticks, w);
        let n = under(x.ticks, w);
        assert(x.ticks.last().abs >= w);
        assert(n == under(t.ticks, w));
        assert(under(y.ticks, w) == n);
        assert(n <= t.ticks.len()) by {
            assert(climbing(t.ticks)) by {
                assert(t.ordered());
            }
            lemma_under(t.ticks, w);
        }
        assert(rows(x.ticks, n) =~= rows(y.ticks, n));
        assert(settled(x) == settled(y));
        assert(kept(x.ticks, w, settled(x)).drop_last() =~= kept(t.ticks, w, settled(x)));
        assert(kept(y.ticks, w, settled(y)).drop_last() =~= kept(t.ticks, w, settled(y)));
    }
}

/// A node shows the same at the newest tick of two tapes that differ there in other nodes alone.
proof fn lemma_held_same(a: Seq<TickView>, b: Seq<TickView>, i: int, p: int)
    requires
        p < a.len(),
        p < b.len(),
        forall|q: int| #![trigger a[q]] #![trigger b[q]] 0 <= q <= p ==> a[q].fires(i) == b[q].fires(i),
    ensures
        held_at(a, i, p) == held_at(b, i, p),
    decreases p + 1,
{
    if p >= 0 {
        assert(a[p].fires(i) == b[p].fires(i));
        lemma_held_same(a, b, i, p - 1);
    }
}

/// A fire shows on its own node alone: had node `j` reported something else, fired or kept quiet, every
/// other node's activation in the frame of the tick would be what it is.
pub proof fn a_fire_shows_on_its_node_alone(
    r: RecorderView,
    t: TapeView,
    j: int,
    act: ActView,
    i: int,
)
    requires
        r.even(),
        t.ok(),
        in_step(r, t),
        open_to(t, r.message()),
        t.opened < 0x1_0000_0000_0000_0000,
        0 <= j < r.acts.len(),
        0 <= i < r.acts.len(),
        i != j,
    ensures
        read_back(t, r.message()).activations[i] == read_back(
            t,
            (RecorderView { acts: r.acts.update(j, act), ..r }).message(),
        ).activations[i],
{
    let q = RecorderView { acts: r.acts.update(j, act), ..r };
    let u = absorbed(t, r.message());
    let v = absorbed(t, q.message());
    let p = back_one(u.ticks.len());
    lemma_read_back(r, t);
    lemma_read_back(q, t);
    lemma_ticks_differ_last(t, r.message(), q.message());
    lemma_with_nodes(t, r.meta);
    let a = (TapeView { sealed: true, ..u }).parked(p);
    let b = (TapeView { sealed: true, ..v }).parked(p);
    assert(a.ticks[p as int].acts[i] == b.ticks[p as int].acts[i]);
    assert forall|k: int|
        #![trigger a.ticks[k]]
        #![trigger b.ticks[k]]
        0 <= k <= p implies a.ticks[k].fires(i) == b.ticks[k].fires(i) by {
        if k < p {
            assert(u.ticks.drop_last()[k] == v.ticks.drop_last()[k]);
        }
    }
    lemma_held_same(a.ticks, b.ticks, i, p as int);
    crate::walking::a_quiet_node_shows_its_last_fire(a.ticks, i, p as int);
    assert(a.standing(i, p) == b.standing(i, p)) by {
        match held_at(a.ticks, i, p as int) {
            Some(k) => {
                if k < p {
                    assert(u.ticks.drop_last()[k as int] == v.ticks.drop_last()[k as int]);
                }
            },
            None => {},
        }
    }
    assert(a.activation(i, p) == b.activation(i, p));
}

/// One node's report in a sweep: who it is, what it did, and the clock on entry and exit.
#[verifier::ext_equal]
pub struct Said {
    pub meta: MetaView,
    pub act: ActView,
    pub entry_ns: u64,
    pub exit_ns: u64,
}

/// One tick of a run: when it was opened, who reported, and whether the handoff had room for it.
#[verifier::ext_equal]
pub struct Sweep {
    pub ts_ns: i64,
    pub now_ns: u64,
    pub said: Seq<Said>,
    pub lands: bool,
}

impl RecorderView {
    /// A report closed at `exit_ns`.
    pub open spec fn settled(self, exit_ns: u64) -> RecorderView {
        if self.timed {
            RecorderView { clock_ns: exit_ns, ..self }
        } else {
            self
        }
    }

    /// Every report of a sweep recorded, in order.
    pub open spec fn swept(self, said: Seq<Said>) -> RecorderView
        decreases said.len(),
    {
        if said.len() == 0 {
            self
        } else {
            let s = said.last();
            self.swept(said.drop_last()).reported(s.meta, s.act, s.entry_ns).settled(s.exit_ns)
        }
    }
}

/// Recorder and tape after one tick of a run. The tape is told the drop tally whatever became of the
/// tick.
pub open spec fn ticked(s: (RecorderView, TapeView), w: Sweep) -> (RecorderView, TapeView) {
    let (r, t) = s;
    let full = r.opening(w.ts_ns, w.now_ns).swept(w.said);
    let msg = full.message();
    if w.lands {
        (full.handed_over(), absorbed(t, msg))
    } else {
        let back = full.handed_over().refused(msg);
        (back, TapeView { dropped: back.dropped, ..t })
    }
}

/// Recorder and tape after a run.
pub open spec fn ticked_all(s: (RecorderView, TapeView), ws: Seq<Sweep>) -> (RecorderView, TapeView)
    decreases ws.len(),
{
    if ws.len() == 0 {
        s
    } else {
        ticked(ticked_all(s, ws.drop_last()), ws.last())
    }
}

proof fn lemma_swept(r: RecorderView, t: TapeView, said: Seq<Said>)
    requires
        in_step(r, t),
    ensures
        in_step(r.swept(said), t),
        named(r, t) ==> named(r.swept(said), t),
        r.swept(said).opened == r.opened,
        r.swept(said).dropped == r.dropped,
    decreases said.len(),
{
    if said.len() > 0 {
        lemma_swept(r, t, said.drop_last());
        if named(r, t) {
            let d = r.swept(said.drop_last());
            let s = said.last();
            reporting_keeps_the_names(d, t, 0, s.entry_ns, s.meta, s.act);
            let told = d.reported(s.meta, s.act, s.entry_ns);
            reporting_keeps_the_names(told, t, 0, s.exit_ns, s.meta, s.act);
        }
    }
}

/// Every stepped tick is either on the tape or counted: over a whole run, whatever the handoff had
/// room for, the drops and the ticks ever absorbed add up to the ticks opened. The tape carries the
/// tally, what it does not know of the graph is still owed to it, and what it knows it shows under the
/// names the nodes were stepped by.
pub proof fn every_tick_is_held_or_counted(
    mode: Backpressure,
    now_ns: u64,
    blank: TapeView,
    ws: Seq<Sweep>,
)
    requires
        blank.even(),
        blank.nodes() == 0,
        blank.opened == 0,
        blank.dropped == 0,
    ensures
        ({
            let (r, t) = ticked_all((RecorderView::fresh(mode, now_ns), blank), ws);
            &&& r.opened == ws.len()
            &&& r.dropped + t.opened == ws.len()
            &&& t.dropped == r.dropped
            &&& t.even()
            &&& in_step(r, t)
            &&& named(r, t)
        }),
    decreases ws.len(),
{
    if ws.len() > 0 {
        let d = ws.drop_last();
        let w = ws.last();
        every_tick_is_held_or_counted(mode, now_ns, blank, d);
        let (r, t) = ticked_all((RecorderView::fresh(mode, now_ns), blank), d);
        let open = r.opening(w.ts_ns, w.now_ns);
        assert(named(open, t));
        lemma_swept(open, t, w.said);
        let full = open.swept(w.said);
        if w.lands {
            landing_keeps_in_step(full, t);
            landing_keeps_the_names(full, t);
            lemma_with_nodes(t, full.meta);
            let l = landed(t, full.message());
            lemma_squeezed_len(
                rows(l.ticks, under(l.ticks, whole(l))),
                l.keep,
                l.capacity / 4,
            );
        } else {
            a_refused_tick_loses_no_identity(full, t);
            refusing_keeps_the_names(full, t);
        }
    }
}

/// A sweep in which every known node reports counts each of them once: one act each, and on a clocked
/// tick one span each.
proof fn lemma_swept_counts(r: RecorderView, said: Seq<Said>)
    requires
        r.acts.len() == 0,
        r.idx == 0,
        r.timed ==> r.spans.len() == 0,
    ensures
        r.swept(said).idx == said.len(),
        r.swept(said).acts.len() == said.len(),
        r.swept(said).timed == r.timed,
        r.timed ==> r.swept(said).spans.len() == said.len(),
    decreases said.len(),
{
    if said.len() > 0 {
        lemma_swept_counts(r, said.drop_last());
    }
}

/// A tick on which every known node reports is one an open tape takes: where it is clocked, it clocks
/// every node in it.
pub proof fn a_full_sweep_is_taken(
    r: RecorderView,
    t: TapeView,
    ts_ns: i64,
    now_ns: u64,
    said: Seq<Said>,
)
    requires
        t.even(),
        !t.sealed,
        in_step(r, t),
        said.len() >= r.raw.len(),
    ensures
        open_to(t, r.opening(ts_ns, now_ns).swept(said).message()),
        r.opening(ts_ns, now_ns).swept(said).message().acts.len() == said.len(),
        r.opening(ts_ns, now_ns).swept(said).message().spans is Some <==> r.opened % (
        TICK_STRIDE as nat) == 0,
{
    let open = r.opening(ts_ns, now_ns);
    lemma_swept_counts(open, said);
    lemma_swept_raw(open, said);
    lemma_swept(open, t, said);
}

/// What a sweep leaves: one act per report, in order, and the reporting nodes' names.
proof fn lemma_swept_says(r: RecorderView, said: Seq<Said>)
    requires
        r.acts.len() == 0,
        r.idx == 0,
        forall|k: int|
            #![trigger said[k]]
            0 <= k < said.len() && k < r.raw.len() ==> said[k].meta.node == r.raw[k],
    ensures
        r.swept(said).idx == said.len(),
        r.swept(said).acts.len() == said.len(),
        r.swept(said).raw.len() >= said.len(),
        r.swept(said).raw.len() >= r.raw.len(),
        forall|k: int|
            #![trigger r.swept(said).raw[k]]
            0 <= k < r.raw.len() ==> r.swept(said).raw[k] == r.raw[k],
        forall|k: int|
            #![trigger r.swept(said).acts[k]]
            #![trigger r.swept(said).raw[k]]
            0 <= k < said.len() ==> r.swept(said).acts[k] == said[k].act && r.swept(said).raw[k]
                == said[k].meta.node,
        r.swept(said).ts_ns == r.ts_ns,
        r.swept(said).dropped == r.dropped,
        r.swept(said).opened == r.opened,
    decreases said.len(),
{
    if said.len() > 0 {
        let d = said.drop_last();
        assert forall|k: int| #![trigger d[k]] 0 <= k < d.len() && k < r.raw.len() implies d[k].meta.node
            == r.raw[k] by {
            assert(said[k].meta.node == r.raw[k]);
        }
        lemma_swept_says(r, d);
        let was = r.swept(d);
        let now = r.swept(said);
        let n = said.len() - 1;
        assert(said[n] == said.last());
        lemma_swept_raw(r, d);
        assert forall|k: int|
            #![trigger now.acts[k]]
            #![trigger now.raw[k]]
            0 <= k < said.len() implies now.acts[k] == said[k].act && now.raw[k]
            == said[k].meta.node by {
            if k < n {
                assert(was.acts[k] == d[k].act && was.raw[k] == d[k].meta.node);
            }
        }
        assert forall|k: int| #![trigger now.raw[k]] 0 <= k < r.raw.len() implies now.raw[k]
            == r.raw[k] by {
            assert(was.raw[k] == r.raw[k]);
        }
    }
}

/// A sweep meets the nodes it is the first to step.
proof fn lemma_swept_raw(r: RecorderView, said: Seq<Said>)
    requires
        r.idx == 0,
    ensures
        r.swept(said).idx == said.len(),
        r.swept(said).raw.len() == if said.len() >= r.raw.len() {
            said.len()
        } else {
            r.raw.len()
        },
    decreases said.len(),
{
    if said.len() > 0 {
        lemma_swept_raw(r, said.drop_last());
    }
}

/// A sweep on which every known node reports under its name reads back from the tape node by node:
/// under the name it reported by, with what it reported.
pub proof fn a_sweep_reads_back(
    r: RecorderView,
    t: TapeView,
    ts_ns: i64,
    now_ns: u64,
    said: Seq<Said>,
    i: int,
)
    requires
        r.dropped <= r.opened,
        t.ok(),
        !t.sealed,
        named(r, t),
        t.opened < 0x1_0000_0000_0000_0000,
        said.len() >= r.raw.len(),
        forall|k: int|
            #![trigger said[k]]
            0 <= k < r.raw.len() ==> said[k].meta.node == r.raw[k],
        0 <= i < said.len(),
    ensures
        ({
            let f = read_back(t, r.opening(ts_ns, now_ns).swept(said).message());
            let a = said[i].act;
            &&& f.tick == t.opened + 1
            &&& f.ts_ns == ts_ns
            &&& f.activations.len() == said.len()
            &&& f.activations[i].node == shown_name(said[i].meta.node)
            &&& f.activations[i].fired == (a.vals is Some)
            &&& f.activations[i].ran == a.ran
            &&& f.activations[i].exact == a.exact
            &&& a.vals matches Some(v) ==> f.activations[i].out == a.out && f.activations[i].vals
                == Some(finite_slots(v))
        }),
{
    let open = r.opening(ts_ns, now_ns);
    let full = open.swept(said);
    assert(named(open, t));
    lemma_swept(open, t, said);
    lemma_swept_says(open, said);
    a_full_sweep_is_taken(r, t, ts_ns, now_ns, said);
    a_report_reads_back(full, t, i);
    assert(full.acts[i] == said[i].act);
}

/// The same graph, but for what its nodes cost.
pub open spec fn same_graph(a: Seq<TopoView>, b: Seq<TopoView>) -> bool {
    a.len() == b.len() && forall|i: int|
        #![trigger a[i]]
        0 <= i < a.len() ==> a[i] == (TopoView { cost_ns: a[i].cost_ns, ..b[i] })
}

/// Every tick of the run steps `n` nodes.
pub open spec fn steps(ws: Seq<Sweep>, n: nat) -> bool {
    forall|k: int| #![trigger ws[k]] 0 <= k < ws.len() ==> ws[k].said.len() == n
}

/// A run that steps `n` nodes on every tick: what landed knows all of them.
proof fn lemma_run_knows_all(mode: Backpressure, now_ns: u64, blank: TapeView, ws: Seq<Sweep>, n: nat)
    requires
        blank.even(),
        blank.nodes() == 0,
        blank.opened == 0,
        blank.dropped == 0,
        steps(ws, n),
    ensures
        ({
            let (r, t) = ticked_all((RecorderView::fresh(mode, now_ns), blank), ws);
            &&& r.raw.len() == if ws.len() > 0 {
                n
            } else {
                0
            }
            &&& t.opened > 0 ==> t.nodes() == n && ws.len() > 0
            &&& t.even()
            &&& in_step(r, t)
        }),
    decreases ws.len(),
{
    every_tick_is_held_or_counted(mode, now_ns, blank, ws);
    if ws.len() > 0 {
        let d = ws.drop_last();
        let w = ws.last();
        assert forall|k: int| #![trigger d[k]] 0 <= k < d.len() implies d[k].said.len() == n by {
            assert(ws[k].said.len() == n);
        }
        assert(ws[ws.len() - 1].said.len() == n);
        lemma_run_knows_all(mode, now_ns, blank, d, n);
        let (r, t) = ticked_all((RecorderView::fresh(mode, now_ns), blank), d);
        let open = r.opening(w.ts_ns, w.now_ns);
        lemma_swept_raw(open, w.said);
        lemma_swept(open, t, w.said);
        let full = open.swept(w.said);
        if w.lands {
            lemma_with_nodes(t, full.meta);
        }
    }
}

/// A graph once shown is the graph: in a run that steps the same number of nodes on every tick, two
/// graphs a client is shown, at whatever points of the run and whether it is over or not, differ at most
/// in what the nodes cost.
pub proof fn a_graph_once_shown_changes_in_cost_alone(
    mode: Backpressure,
    now_ns: u64,
    blank: TapeView,
    ws: Seq<Sweep>,
    n: nat,
    k: int,
    then_over: bool,
    now_over: bool,
)
    requires
        blank.even(),
        blank.nodes() == 0,
        blank.opened == 0,
        blank.dropped == 0,
        steps(ws, n),
        0 <= k <= ws.len(),
    ensures
        ({
            let (_, a) = ticked_all((RecorderView::fresh(mode, now_ns), blank), ws.take(k));
            let (_, b) = ticked_all((RecorderView::fresh(mode, now_ns), blank), ws);
            let was = (TapeView { sealed: then_over, ..a }).outline();
            let now = (TapeView { sealed: now_over, ..b }).outline();
            was.len() > 0 && now.len() > 0 ==> same_graph(was, now)
        }),
    decreases ws.len(),
{
    let (_, a) = ticked_all((RecorderView::fresh(mode, now_ns), blank), ws.take(k));
    let (_, b) = ticked_all((RecorderView::fresh(mode, now_ns), blank), ws);
    if a.opened > 0 {
        lemma_topology_stays(mode, now_ns, blank, ws, n, k);
    }
}

proof fn lemma_topology_stays(
    mode: Backpressure,
    now_ns: u64,
    blank: TapeView,
    ws: Seq<Sweep>,
    n: nat,
    k: int,
)
    requires
        blank.even(),
        blank.nodes() == 0,
        blank.opened == 0,
        blank.dropped == 0,
        steps(ws, n),
        0 <= k <= ws.len(),
        ticked_all((RecorderView::fresh(mode, now_ns), blank), ws.take(k)).1.opened > 0,
    ensures
        ({
            let (_, a) = ticked_all((RecorderView::fresh(mode, now_ns), blank), ws.take(k));
            let (_, b) = ticked_all((RecorderView::fresh(mode, now_ns), blank), ws);
            &&& b.topology == a.topology
            &&& b.opened > 0
        }),
    decreases ws.len(),
{
    if k == ws.len() {
        assert(ws.take(k) =~= ws);
    } else {
        let d = ws.drop_last();
        let w = ws.last();
        assert(d.take(k) =~= ws.take(k));
        assert forall|j: int| #![trigger d[j]] 0 <= j < d.len() implies d[j].said.len() == n by {
            assert(ws[j].said.len() == n);
        }
        assert(ws[ws.len() - 1].said.len() == n);
        lemma_topology_stays(mode, now_ns, blank, d, n, k);
        lemma_run_knows_all(mode, now_ns, blank, d, n);
        let (r, t) = ticked_all((RecorderView::fresh(mode, now_ns), blank), d);
        let open = r.opening(w.ts_ns, w.now_ns);
        lemma_swept_raw(open, w.said);
        lemma_swept(open, t, w.said);
        let full = open.swept(w.said);
        assert(full.meta.len() == 0);
    }
}

/// On a clocked tick a node is charged from the exit of the report before it to the entry of its own:
/// what the recording itself took is charged to nobody.
pub proof fn a_span_is_one_nodes_step(r: RecorderView, before: Said, after: Said)
    requires
        r.timed,
    ensures
        r.reported(before.meta, before.act, before.entry_ns).settled(before.exit_ns).reported(
            after.meta,
            after.act,
            after.entry_ns,
        ).spans.last() == span_ns(before.exit_ns, after.entry_ns),
{
}

} // verus!
