//! What a tape is, and what each tick handed to it makes of it.
use vstd::prelude::*;

use crate::acts::ActView;
use crate::api_types::{FidelityView, PlotView, PointView, SeriesView, TopoView};
use crate::cost::Cost;
use crate::floats::Bits;
use crate::names::{shown_name, shown_names};
use crate::rank::{rank, FIRST};
use crate::thinning::{claimed, squeezed};

verus! {

/// One retained tick.
#[verifier::ext_equal]
pub struct TickView {
    /// Index among all ticks ever opened, so a tick's id survives every thinning pass.
    pub abs: nat,
    pub ts_ns: i64,
    pub acts: Seq<ActView>,
    /// `0` where the node did not fire, else the rank of that fire; positional with the topology.
    pub ranks: Seq<u8>,
}

/// A node's identity, told the one tick it first steps on.
#[verifier::ext_equal]
pub struct MetaView {
    pub node: Seq<char>,
    pub deps: Seq<Seq<char>>,
    /// Which of `deps` are control edges, by position.
    pub gates: Seq<bool>,
    pub dims: Seq<usize>,
    pub plots: Seq<PlotView>,
    pub clock_ms: Option<i64>,
    pub fidelity: FidelityView,
    pub deriv: Option<Seq<char>>,
}

/// One finished tick on its way to the tape.
#[verifier::ext_equal]
pub struct MsgView {
    pub ts_ns: i64,
    pub acts: Seq<ActView>,
    /// The nodes first stepped on this tick.
    pub meta: Seq<MetaView>,
    /// Per-node step spans in nanoseconds, present only on the clocked ticks.
    pub spans: Option<Seq<u64>>,
}

/// A tape.
#[verifier::ext_equal]
pub struct TapeView {
    pub price_node: Option<Seq<char>>,
    pub capacity: nat,
    pub bucket_ms: i64,
    pub topology: Seq<TopoView>,
    pub cost: Seq<Cost>,
    /// Ascending by `abs`.
    pub ticks: Seq<TickView>,
    /// Ticks ever absorbed, thinned-away ones included.
    pub opened: nat,
    /// Per-node fire count so far.
    pub fires: Seq<nat>,
    /// Per-node "keep one fire in `2^keep[i]`", only ever raised.
    pub keep: Seq<u8>,
    /// The recording is over.
    pub sealed: bool,
    /// Ticks the recorder could not hand over.
    pub dropped: nat,
    pub series: Seq<SeriesView>,
    /// Ticks consumed; absolute, so a thinning pass under a parked cursor cannot slide it.
    pub cursor: nat,
}

/// Node `i` fired.
pub open spec fn fired(acts: Seq<ActView>, i: int) -> bool {
    0 <= i < acts.len() && acts[i].vals is Some
}

impl TickView {
    /// Node `i` fired on this tick and was known by then.
    pub open spec fn fires(self, i: int) -> bool {
        0 <= i < self.ranks.len() && self.ranks[i] > 0
    }

    /// The ranks are ranks, and say who fired.
    pub open spec fn ok(self, nodes: nat) -> bool {
        &&& self.ranks.len() <= nodes
        &&& forall|i: int|
            #![trigger self.ranks[i]]
            0 <= i < self.ranks.len() ==> self.ranks[i] <= FIRST && (self.ranks[i] > 0 <==> fired(
                self.acts,
                i,
            ))
    }
}

/// A tape nothing was recorded on.
pub open spec fn blank(price_node: Option<Seq<char>>, capacity: nat, bucket_ms: i64) -> TapeView {
    TapeView {
        price_node,
        capacity,
        bucket_ms,
        topology: Seq::empty(),
        cost: Seq::empty(),
        ticks: Seq::empty(),
        opened: 0,
        fires: Seq::empty(),
        keep: Seq::empty(),
        sealed: false,
        dropped: 0,
        series: Seq::empty(),
        cursor: 0,
    }
}

/// The shown names of the first `n` dependencies that are gates.
pub open spec fn gated(deps: Seq<Seq<char>>, gates: Seq<bool>, n: nat) -> Seq<Seq<char>>
    decreases n,
{
    if n == 0 {
        Seq::empty()
    } else {
        let r = gated(deps, gates, (n - 1) as nat);
        if gates[n - 1] {
            r.push(shown_name(deps[n - 1]))
        } else {
            r
        }
    }
}

impl MetaView {
    /// How many dependencies have a gate flag.
    pub open spec fn flagged(self) -> nat {
        if self.deps.len() <= self.gates.len() {
            self.deps.len()
        } else {
            self.gates.len()
        }
    }

    /// The node as the topology lists it. On the wire `gates` is a subset of `deps` by name.
    pub open spec fn topo(self) -> TopoView {
        TopoView {
            node: shown_name(self.node),
            deps: shown_names(self.deps),
            gates: gated(self.deps, self.gates, self.flagged()),
            dims: self.dims,
            plots: self.plots,
            cost_ns: None,
            fidelity: self.fidelity,
            deriv: self.deriv,
        }
    }

    /// The node's series before its first point.
    pub open spec fn series(self) -> SeriesView {
        SeriesView {
            node: shown_name(self.node),
            deps: shown_names(self.deps),
            gates: gated(self.deps, self.gates, self.flagged()),
            dims: self.dims,
            plots: self.plots,
            points: Seq::empty(),
            clock_ms: self.clock_ms,
        }
    }
}

/// The tape once it knows of the nodes `ms`.
pub open spec fn with_nodes(t: TapeView, ms: Seq<MetaView>) -> TapeView
    decreases ms.len(),
{
    if ms.len() == 0 {
        t
    } else {
        let p = with_nodes(t, ms.drop_last());
        TapeView {
            topology: p.topology.push(ms.last().topo()),
            series: p.series.push(ms.last().series()),
            cost: p.cost.push(Cost::fresh()),
            fires: p.fires.push(0),
            keep: p.keep.push(0),
            ..p
        }
    }
}

/// Every node's cost with its span counted in.
pub open spec fn costed(cost: Seq<Cost>, spans: Option<Seq<u64>>) -> Seq<Cost> {
    match spans {
        Some(xs) => Seq::new(cost.len(), |i: int| cost[i].sampled(xs[i])),
        None => cost,
    }
}

/// Of the first `n` nodes, those whose block the spans close, each with the block's minimum.
pub open spec fn closed_blocks(cost: Seq<Cost>, spans: Seq<u64>, n: nat) -> Seq<(usize, u64)>
    decreases n,
{
    if n == 0 {
        Seq::empty()
    } else {
        let r = closed_blocks(cost, spans, (n - 1) as nat);
        if cost[n - 1].closes() {
            r.push(((n - 1) as usize, cost[n - 1].floor(spans[n - 1])))
        } else {
            r
        }
    }
}

/// Milliseconds, rounded toward zero.
pub open spec fn millis(ts_ns: i64) -> int {
    if ts_ns >= 0 {
        ts_ns as int / 1_000_000
    } else {
        -((-(ts_ns as int)) / 1_000_000)
    }
}

/// The start of the chart bucket `ts_ns` falls in.
pub open spec fn bucket(ts_ns: i64, bucket_ms: i64) -> int {
    millis(ts_ns) - millis(ts_ns) % (bucket_ms as int)
}

/// The points once `vals` came in for bucket `b`: the newest point takes them where it is not older
/// than the bucket, so the points stay ascending though a feed's timestamps go backwards. A tape keeps
/// one rendering per fire, so the points say no more than the values.
pub open spec fn stamped(points: Seq<PointView>, b: int, vals: Seq<Bits>) -> Seq<PointView> {
    if points.len() > 0 && points.last().ts_ms >= b {
        points.update(
            points.len() - 1,
            PointView { ts_ms: points.last().ts_ms, vals, detail: Seq::empty() },
        )
    } else {
        points.push(PointView { ts_ms: b as i64, vals, detail: Seq::empty() })
    }
}

/// Each node's rank on the tick `acts` describes.
pub open spec fn ranks(fires: Seq<nat>, acts: Seq<ActView>) -> Seq<u8> {
    Seq::new(
        fires.len(),
        |i: int|
            if fired(acts, i) {
                rank(fires[i]) as u8
            } else {
                0u8
            },
    )
}

/// The fire counts with the tick `acts` describes counted in.
pub open spec fn counted(fires: Seq<nat>, acts: Seq<ActView>) -> Seq<nat> {
    Seq::new(
        fires.len(),
        |i: int|
            if fired(acts, i) {
                fires[i] + 1
            } else {
                fires[i]
            },
    )
}

/// Every series with the tick's values stamped on it.
pub open spec fn charted(series: Seq<SeriesView>, acts: Seq<ActView>, b: int) -> Seq<SeriesView> {
    Seq::new(
        series.len(),
        |i: int|
            if fired(acts, i) {
                SeriesView {
                    points: stamped(series[i].points, b, acts[i].vals->Some_0),
                    ..series[i]
                }
            } else {
                series[i]
            },
    )
}

/// How many ticks have an id below `c`.
pub open spec fn under(ticks: Seq<TickView>, c: nat) -> nat
    decreases ticks.len(),
{
    if ticks.len() == 0 {
        0
    } else if ticks.last().abs < c {
        ticks.len()
    } else {
        under(ticks.drop_last(), c)
    }
}

/// The ranks of the first `n` ticks.
pub open spec fn rows(ticks: Seq<TickView>, n: nat) -> Seq<Seq<u8>> {
    Seq::new(n, |p: int| ticks[p].ranks)
}

/// The oldest id of the stretch that is kept whole.
pub open spec fn whole(t: TapeView) -> nat {
    if t.opened >= t.capacity / 2 {
        (t.opened - t.capacity / 2) as nat
    } else {
        0
    }
}

/// The tick is in the whole stretch or claimed by some node.
pub open spec fn retained(t: TickView, from: nat, keep: Seq<u8>) -> bool {
    t.abs >= from || claimed(t.ranks, keep)
}

/// The ticks that are retained, in order.
pub open spec fn kept(ticks: Seq<TickView>, from: nat, keep: Seq<u8>) -> Seq<TickView>
    decreases ticks.len(),
{
    if ticks.len() == 0 {
        Seq::empty()
    } else {
        let r = kept(ticks.drop_last(), from, keep);
        if retained(ticks.last(), from, keep) {
            r.push(ticks.last())
        } else {
            r
        }
    }
}

/// The acts of the ticks that are not retained, in order.
pub open spec fn freed(ticks: Seq<TickView>, from: nat, keep: Seq<u8>) -> Seq<Seq<ActView>>
    decreases ticks.len(),
{
    if ticks.len() == 0 {
        Seq::empty()
    } else {
        let r = freed(ticks.drop_last(), from, keep);
        if retained(ticks.last(), from, keep) {
            r
        } else {
            r.push(ticks.last().acts)
        }
    }
}

/// The exponents a thinning pass settles at: the ticks before the whole stretch squeezed under a
/// quarter of the buffer.
pub open spec fn settled(t: TapeView) -> Seq<u8> {
    squeezed(rows(t.ticks, under(t.ticks, whole(t))), t.keep, t.capacity / 4)
}

/// The tape after a thinning pass: the newest half of the buffer whole, plus every older tick some
/// node fired on at a rank the squeeze has not reached.
pub open spec fn thinned(t: TapeView) -> TapeView {
    TapeView { keep: settled(t), ticks: kept(t.ticks, whole(t), settled(t)), ..t }
}

/// The tape with the tick's nodes known, its spans counted and its values charted; not yet held.
pub open spec fn noted(t: TapeView, msg: MsgView) -> TapeView {
    let a = with_nodes(t, msg.meta);
    TapeView {
        cost: costed(a.cost, msg.spans),
        fires: counted(a.fires, msg.acts),
        series: charted(a.series, msg.acts, bucket(msg.ts_ns, t.bucket_ms)),
        ..a
    }
}

/// The tick as the tape holds it.
pub open spec fn held_tick(t: TapeView, msg: MsgView) -> TickView {
    TickView {
        abs: t.opened,
        ts_ns: msg.ts_ns,
        acts: msg.acts,
        ranks: ranks(with_nodes(t, msg.meta).fires, msg.acts),
    }
}

/// The tape with the tick on it, which may fill the buffer.
pub open spec fn landed(t: TapeView, msg: MsgView) -> TapeView {
    let n = noted(t, msg);
    TapeView { ticks: n.ticks.push(held_tick(t, msg)), opened: t.opened + 1, ..n }
}

/// The tape with room for one more tick: a full buffer is thinned.
pub open spec fn roomy(t: TapeView) -> TapeView {
    if t.ticks.len() == t.capacity {
        thinned(t)
    } else {
        t
    }
}

/// The tape once the tick is on it. The thinning pass is made by the tick that fills the buffer, so
/// the buffer is never left full.
pub open spec fn absorbed(t: TapeView, msg: MsgView) -> TapeView {
    roomy(landed(t, msg))
}

/// The act buffers that absorbing the tick frees.
pub open spec fn absorb_freed(t: TapeView, msg: MsgView) -> Seq<Seq<ActView>> {
    let l = landed(t, msg);
    if l.ticks.len() == l.capacity {
        freed(l.ticks, whole(l), settled(l))
    } else {
        Seq::empty()
    }
}

/// The block minima that absorbing the tick closes.
pub open spec fn absorb_closed(t: TapeView, msg: MsgView) -> Seq<(usize, u64)> {
    let a = with_nodes(t, msg.meta);
    match msg.spans {
        Some(xs) => closed_blocks(a.cost, xs, a.cost.len()),
        None => Seq::empty(),
    }
}

/// The tape takes the tick: its recording is not over, and a clocked tick clocks every node in it.
pub open spec fn open_to(t: TapeView, msg: MsgView) -> bool {
    &&& !t.sealed
    &&& msg.spans matches Some(xs) ==> xs.len() == t.cost.len() + msg.meta.len()
}

impl TapeView {
    /// How many nodes the tape knows.
    pub open spec fn nodes(self) -> nat {
        self.topology.len()
    }

    /// One entry per node everywhere.
    pub open spec fn even(self) -> bool {
        &&& self.series.len() == self.nodes()
        &&& self.cost.len() == self.nodes()
        &&& self.fires.len() == self.nodes()
        &&& self.keep.len() == self.nodes()
    }

    /// Ids ascend.
    pub open spec fn climbs(self) -> bool {
        forall|p: int, q: int|
            #![trigger self.ticks[p], self.ticks[q]]
            0 <= p < q < self.ticks.len() ==> self.ticks[p].abs < self.ticks[q].abs
    }

    /// Ids ascend, none has not been opened, and the newest tick is always held.
    pub open spec fn ordered(self) -> bool {
        &&& self.climbs()
        &&& self.ticks.len() > 0 <==> self.opened > 0
        &&& self.ticks.len() > 0 ==> self.ticks.last().abs == self.opened - 1
    }

    /// The tick before the newest is held too: while the recording is open it is the last addressable
    /// one.
    pub open spec fn paired(self) -> bool {
        self.opened >= 2 ==> self.ticks.len() >= 2 && self.ticks[self.ticks.len()
            - 2].abs == self.opened - 2
    }

    /// The points of every series ascend.
    pub open spec fn ascending(self) -> bool {
        forall|i: int, a: int, b: int|
            #![trigger self.series[i].points[a], self.series[i].points[b]]
            0 <= i < self.series.len() && 0 <= a < b < self.series[i].points.len()
                ==> self.series[i].points[a].ts_ms < self.series[i].points[b].ts_ms
    }

    /// What holds of every tape between two ticks. While it is recorded onto it is sound, and its
    /// buffer never full; one that is over is only walked, and is taken as it was written.
    pub open spec fn ok(self) -> bool {
        if self.sealed {
            self.walkable()
        } else {
            self.sound() && self.ticks.len() < self.capacity
        }
    }

    /// What walking a tape rests on: a cost for every node, and ids that ascend.
    pub open spec fn walkable(self) -> bool {
        &&& self.nodes() <= self.cost.len()
        &&& self.climbs()
    }

    /// What recording keeps of a tape, also of one whose newest tick filled the buffer.
    pub open spec fn sound(self) -> bool {
        &&& self.capacity > 3
        &&& self.bucket_ms > 0
        &&& self.even()
        &&& self.ticks.len() <= self.capacity
        &&& self.ordered()
        &&& self.paired()
        &&& self.ascending()
        &&& forall|p: int|
            #![trigger self.ticks[p]]
            0 <= p < self.ticks.len() ==> self.ticks[p].ok(self.nodes())
        &&& forall|i: int|
            #![trigger self.keep[i]]
            0 <= i < self.keep.len() ==> self.keep[i] <= FIRST
        &&& forall|i: int|
            #![trigger self.fires[i]]
            0 <= i < self.fires.len() ==> self.fires[i] <= self.opened
        &&& forall|i: int| #![trigger self.cost[i]] 0 <= i < self.cost.len() ==> self.cost[i].wf()
    }
}

/// The tape once every tick of `msgs` is on it, in order.
pub open spec fn absorbed_all(t: TapeView, msgs: Seq<MsgView>) -> TapeView
    decreases msgs.len(),
{
    if msgs.len() == 0 {
        t
    } else {
        absorbed(absorbed_all(t, msgs.drop_last()), msgs.last())
    }
}

/// Every tick of `msgs` is taken by the tape it lands on.
pub open spec fn open_to_all(t: TapeView, msgs: Seq<MsgView>) -> bool
    decreases msgs.len(),
{
    msgs.len() > 0 ==> open_to_all(t, msgs.drop_last()) && open_to(
        absorbed_all(t, msgs.drop_last()),
        msgs.last(),
    )
}

/// The act buffers freed while `msgs` are absorbed, in order.
pub open spec fn freed_all(t: TapeView, msgs: Seq<MsgView>) -> Seq<Seq<ActView>>
    decreases msgs.len(),
{
    if msgs.len() == 0 {
        Seq::empty()
    } else {
        freed_all(t, msgs.drop_last()) + absorb_freed(
            absorbed_all(t, msgs.drop_last()),
            msgs.last(),
        )
    }
}

/// The block minima closed while `msgs` are absorbed, in order.
pub open spec fn closed_all(t: TapeView, msgs: Seq<MsgView>) -> Seq<(usize, u64)>
    decreases msgs.len(),
{
    if msgs.len() == 0 {
        Seq::empty()
    } else {
        closed_all(t, msgs.drop_last()) + absorb_closed(
            absorbed_all(t, msgs.drop_last()),
            msgs.last(),
        )
    }
}

/// How many ticks are absorbed per hold of the tape.
pub open spec fn batch_width(capacity: nat) -> nat {
    if capacity / 4 == 0 {
        1
    } else if capacity / 4 < 64 {
        capacity / 4
    } else {
        64
    }
}

} // verus!
