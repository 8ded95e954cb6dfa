//! The tape: what a recording is held in.
//!
//! The recording is the storage: a live run cannot be run again. Ticks land in a bounded buffer that
//! thins with age rather than forgetting its front; the per-node series the chart draws is
//! downsampled as it comes in and never dropped.
use std::collections::VecDeque;

use vstd::prelude::*;

use crate::acts::{copied, Acts, Ends};
use crate::api_types::{FidelityOut, PlotOut, PointOut, SeriesOut, TopoNode};
use crate::cost::Cost;
use crate::floats::Bits;
use crate::keeping::{
    absorbing_keeps_a_tape, climbing, exponents_only_rise, lemma_bucket, lemma_held_tick_ok, lemma_landed_sound,
    lemma_noted_ok, lemma_rows_ranked, lemma_thinned_ok, lemma_under, lemma_with_nodes,
};
use crate::model::{
    absorb_closed, absorb_freed, absorbed, absorbed_all, blank, bucket, charted, closed_all,
    closed_blocks, costed, counted, fired, freed, freed_all, gated, held_tick, kept, landed, noted,
    open_to, open_to_all, ranks, rows, settled, stamped, thinned, under, whole, with_nodes, MetaView,
    MsgView, TapeView, TickView,
};
use crate::names::{shown_name, trim, trim_all};
use crate::rank::{rank_of, FIRST};
use crate::text::{clone_optional, clone_strings};
use crate::thinning::{
    backbone, below, claimed, claims, greediest, lemma_backbone_bound, lemma_greediest_unique,
    lemma_over_raisable, lemma_share_bound, raised, share, shares, squeezed,
};

verus! {

/// A node's identity, sent the one tick it first steps on.
pub struct Meta {
    pub node: &'static str,
    pub deps: &'static [&'static str],
    /// Which of `deps` are control edges, by position.
    pub gates: &'static [bool],
    pub dims: &'static [usize],
    pub plots: Vec<PlotOut>,
    pub clock_ms: Option<i64>,
    pub fidelity: FidelityOut,
    pub deriv: Option<String>,
}

/// One finished tick on its way to the tape.
pub struct TickMsg {
    pub ts_ns: i64,
    pub acts: Acts,
    /// `None` once the graph is whole, which after the first tick it is.
    pub meta: Option<Vec<Meta>>,
    /// Per-node step spans in nanoseconds, present only on the clocked ticks.
    pub spans: Option<Vec<u64>>,
}

/// One retained tick.
pub struct Tick {
    /// Index among all ticks ever opened, so a tick's id survives every thinning pass.
    pub abs: usize,
    pub ts_ns: i64,
    pub acts: Acts,
    /// `0` where the node did not fire, else the rank of that fire; positional with the topology.
    pub ranks: Vec<u8>,
}

/// The tape.
pub struct Inner {
    pub price_node: Option<String>,
    pub capacity: usize,
    pub bucket_ms: i64,
    pub topology: Vec<TopoNode>,
    /// The nodes' step-cost estimates, positional with `topology`.
    pub cost: Vec<Cost>,
    /// Ascending by `abs`. While they are recorded they are fewer than `capacity`: the pass is made as
    /// soon as the buffer is full.
    pub ticks: VecDeque<Tick>,
    /// Ticks ever absorbed, thinned-away ones included.
    pub opened: usize,
    /// Per-node fire count so far, positional with `topology`.
    pub fires: Vec<usize>,
    /// Per-node "keep one fire in `2^keep[i]`", positional with `topology` and only ever raised.
    pub keep: Vec<u8>,
    /// Per node, ascending, the positions in `ticks` it fired on. Positions and not ids: between
    /// thinning passes `ticks` only grows at the back, so a position already recorded cannot move.
    pub fired: Vec<Vec<usize>>,
    /// The recording is over.
    pub sealed: bool,
    /// Ticks the recorder could not hand over.
    pub dropped: usize,
    pub series: Vec<SeriesOut>,
    /// Ticks consumed; the frame describes the one that consumed `cursor - 1`.
    pub cursor: usize,
}

/// What absorbing a tick leaves behind.
pub struct Absorbed {
    /// The act buffers a thinning pass freed, for the recorder to fill again.
    pub freed: Vec<Acts>,
    /// The nodes whose block of cost samples closed, each with the block's minimum.
    pub closed: Vec<(usize, u64)>,
}

/// The numbers of a column.
pub open spec fn nats(s: Seq<usize>) -> Seq<nat> {
    Seq::new(s.len(), |i: int| s[i] as nat)
}

impl DeepView for Meta {
    type V = MetaView;

    open spec fn deep_view(&self) -> MetaView {
        MetaView {
            node: self.node@,
            deps: self.deps.deep_view(),
            gates: self.gates@,
            dims: self.dims@,
            plots: self.plots.deep_view(),
            clock_ms: self.clock_ms,
            fidelity: self.fidelity.deep_view(),
            deriv: self.deriv.deep_view(),
        }
    }
}

impl View for TickMsg {
    type V = MsgView;

    open spec fn view(&self) -> MsgView {
        MsgView {
            ts_ns: self.ts_ns,
            acts: self.acts@,
            meta: match self.meta {
                Some(m) => m.deep_view(),
                None => Seq::empty(),
            },
            spans: match self.spans {
                Some(s) => Some(s@),
                None => None,
            },
        }
    }
}

impl DeepView for Tick {
    type V = TickView;

    open spec fn deep_view(&self) -> TickView {
        TickView {
            abs: self.abs as nat,
            ts_ns: self.ts_ns,
            acts: self.acts@,
            ranks: self.ranks@,
        }
    }
}

impl View for Inner {
    type V = TapeView;

    open spec fn view(&self) -> TapeView {
        TapeView {
            price_node: self.price_node.deep_view(),
            capacity: self.capacity as nat,
            bucket_ms: self.bucket_ms,
            topology: self.topology.deep_view(),
            cost: self.cost@,
            ticks: self.ticks.deep_view(),
            opened: self.opened as nat,
            fires: nats(self.fires@),
            keep: self.keep@,
            sealed: self.sealed,
            dropped: self.dropped as nat,
            series: self.series.deep_view(),
            cursor: self.cursor as nat,
        }
    }
}

/// The positions node `i` fired on, ascending.
pub open spec fn positions(ticks: Seq<TickView>, i: int) -> Seq<nat>
    decreases ticks.len(),
{
    if ticks.len() == 0 {
        Seq::empty()
    } else {
        let r = positions(ticks.drop_last(), i);
        if ticks.last().fires(i) {
            r.push((ticks.len() - 1) as nat)
        } else {
            r
        }
    }
}

/// `index` lists, per node, the positions it fired on.
pub open spec fn indexes(index: Seq<Vec<usize>>, ticks: Seq<TickView>) -> bool {
    &&& forall|p: int|
        #![trigger ticks[p]]
        0 <= p < ticks.len() ==> ticks[p].ranks.len() <= index.len()
    &&& forall|i: int|
        #![trigger index[i]]
        0 <= i < index.len() ==> nats(index[i]@) == positions(ticks, i)
}

/// How many nodes the widest of the ticks knows.
pub open spec fn widest(ticks: Seq<TickView>) -> nat
    decreases ticks.len(),
{
    if ticks.len() == 0 {
        0
    } else {
        let r = widest(ticks.drop_last());
        if r >= ticks.last().ranks.len() {
            r
        } else {
            ticks.last().ranks.len()
        }
    }
}

impl Tick {
    /// The tick can be shown: every node can be read, and its number fits where it is told.
    pub open spec fn legible(self) -> bool {
        self.acts.legible() && self.abs < usize::MAX
    }
}

/// Every tick can be shown.
pub open spec fn all_legible(ticks: Seq<Tick>) -> bool {
    forall|p: int| #![trigger ticks[p]] 0 <= p < ticks.len() ==> ticks[p].legible()
}

impl Inner {
    /// What holds of every tape, every tick can be shown, and the index is that of its ticks.
    pub open spec fn wf(self) -> bool {
        &&& self@.ok()
        &&& all_legible(self.ticks@)
        &&& indexes(self.fired@, self@.ticks)
    }
}

/// Appends what a tick says to the index.
fn index_tick(index: &mut Vec<Vec<usize>>, ranks: &Vec<u8>, p: usize, Ghost(ticks): Ghost<
    Seq<TickView>,
>, Ghost(t): Ghost<TickView>)
    requires
        indexes(old(index)@, ticks),
        t.ranks == ranks@,
        p == ticks.len(),
    ensures
        indexes(final(index)@, ticks.push(t)),
        final(index)@.len() == if old(index)@.len() >= ranks@.len() {
            old(index)@.len()
        } else {
            ranks@.len()
        },
{
    while index.len() < ranks.len()
        invariant
            indexes(index@, ticks),
            index@.len() == old(index)@.len() || (old(index)@.len() <= index@.len()
                <= ranks@.len()),
        decreases ranks@.len() - index@.len(),
    {
        let ghost n = index@.len() as int;
        index.push(Vec::new());
        proof {
            lemma_positions_unknown(ticks, n);
            assert(nats(index@[n]@) =~= positions(ticks, n));
        }
    }
    let ghost base = index@;
    let mut i: usize = 0;
    proof {
        assert(ticks.push(t).drop_last() =~= ticks);
    }
    while i < ranks.len()
        invariant
            indexes(base, ticks),
            t.ranks == ranks@,
            p == ticks.len(),
            i <= ranks@.len() <= index@.len(),
            index@.len() == base.len(),
            ticks.push(t).drop_last() == ticks,
            forall|j: int|
                #![trigger index@[j]]
                0 <= j < i ==> nats(index@[j]@) == positions(ticks.push(t), j),
            forall|j: int| #![trigger index@[j]] i <= j < base.len() ==> index@[j] == base[j],
        decreases ranks@.len() - i,
    {
        let ghost was = index@;
        if ranks[i] > 0 {
            index[i].push(p);
            proof {
                assert(was[i as int] == base[i as int]);
                assert(nats(index@[i as int]@) =~= positions(ticks, i as int).push(p as nat));
            }
        }
        proof {
            assert(index@[i as int] == was[i as int] || ranks@[i as int] > 0);
            assert(nats(index@[i as int]@) == positions(ticks.push(t), i as int));
        }
        i += 1;
    }
    proof {
        let now = ticks.push(t);
        assert forall|j: int| #![trigger index@[j]] 0 <= j < index@.len() implies nats(index@[j]@)
            == positions(now, j) by {
            if j >= ranks@.len() {
                assert(index@[j] == base[j]);
                assert(!t.fires(j));
            }
        }
        assert forall|q: int| #![trigger now[q]] 0 <= q < now.len() implies now[q].ranks.len()
            <= index@.len() by {
            if q < ticks.len() {
                assert(ticks[q].ranks.len() <= base.len());
            }
        }
    }
}

/// A node no tick knows of has fired on none.
proof fn lemma_positions_unknown(ticks: Seq<TickView>, i: int)
    requires
        forall|p: int| #![trigger ticks[p]] 0 <= p < ticks.len() ==> ticks[p].ranks.len() <= i,
    ensures
        positions(ticks, i) == Seq::<nat>::empty(),
    decreases ticks.len(),
{
    if ticks.len() > 0 {
        let d = ticks.drop_last();
        assert forall|p: int| #![trigger d[p]] 0 <= p < d.len() implies d[p].ranks.len() <= i by {
            assert(ticks[p].ranks.len() <= i);
        }
        lemma_positions_unknown(d, i);
        assert(ticks[ticks.len() - 1].ranks.len() <= i);
    }
}

/// Per node the ticks know, the positions in `ticks` it fired on.
pub fn index(ticks: &VecDeque<Tick>) -> (r: Vec<Vec<usize>>)
    ensures
        indexes(r@, ticks.deep_view()),
        r@.len() == widest(ticks.deep_view()),
{
    let mut out: Vec<Vec<usize>> = Vec::new();
    let mut p: usize = 0;
    while p < ticks.len()
        invariant
            p <= ticks@.len(),
            indexes(out@, ticks.deep_view().take(p as int)),
            out@.len() == widest(ticks.deep_view().take(p as int)),
        decreases ticks@.len() - p,
    {
        let ghost done = ticks.deep_view().take(p as int);
        let ghost t = ticks@[p as int].deep_view();
        index_tick(&mut out, &ticks[p].ranks, p, Ghost(done), Ghost(t));
        assert(done.push(t) =~= ticks.deep_view().take(p + 1));
        assert(done.push(t).drop_last() =~= done);
        p += 1;
    }
    assert(ticks.deep_view().take(p as int) =~= ticks.deep_view());
    out
}

/// The shown names of the dependencies that are gates.
fn gate_names(deps: &[&'static str], gates: &[bool]) -> (r: Vec<String>)
    ensures
        r.deep_view() == gated(
            deps.deep_view(),
            gates@,
            if deps@.len() <= gates@.len() {
                deps@.len()
            } else {
                gates@.len()
            },
        ),
{
    let n: usize = if deps.len() <= gates.len() {
        deps.len()
    } else {
        gates.len()
    };
    let mut out: Vec<String> = Vec::new();
    let mut k: usize = 0;
    assert(out.deep_view() =~= gated(deps.deep_view(), gates@, 0));
    while k < n
        invariant
            k <= n <= deps@.len(),
            n <= gates@.len(),
            out.deep_view() == gated(deps.deep_view(), gates@, k as nat),
        decreases n - k,
    {
        if gates[k] {
            let ghost was = out.deep_view();
            out.push(trim(deps[k]));
            assert(out.deep_view() =~= was.push(shown_name(deps.deep_view()[k as int])));
        }
        k += 1;
    }
    out
}

/// The node `m` tells of, as the topology lists it.
fn topo_of(m: &Meta) -> (r: TopoNode)
    ensures
        r.deep_view() == m.deep_view().topo(),
{
    let dims: Vec<usize> = copied(m.dims);
    let plots: Vec<PlotOut> = m.plots.clone();
    proof {
        assert(dims.deep_view() =~= m.dims@);
        assert(plots.deep_view() =~= m.plots.deep_view());
    }
    TopoNode {
        node: trim(m.node),
        deps: trim_all(m.deps),
        gates: gate_names(m.deps, m.gates),
        dims,
        plots,
        cost_ns: None,
        fidelity: m.fidelity.clone(),
        deriv: clone_optional(&m.deriv),
    }
}

/// The series of the node `n`, before its first point.
fn series_of(n: &TopoNode, clock_ms: Option<i64>) -> (r: SeriesOut)
    ensures
        r.deep_view() == (crate::api_types::SeriesView {
            node: n.deep_view().node,
            deps: n.deep_view().deps,
            gates: n.deep_view().gates,
            dims: n.deep_view().dims,
            plots: n.deep_view().plots,
            points: Seq::empty(),
            clock_ms,
        }),
{
    let r = SeriesOut {
        node: n.node.clone(),
        deps: clone_strings(&n.deps),
        gates: clone_strings(&n.gates),
        dims: n.dims.clone(),
        plots: n.plots.clone(),
        points: Vec::new(),
        clock_ms,
    };
    proof {
        assert(r.dims.deep_view() =~= n.dims.deep_view());
        assert(r.plots.deep_view() =~= n.plots.deep_view());
        assert(r.points.deep_view() =~= Seq::empty());
    }
    r
}

impl Inner {
    /// An empty tape. `price_node` names the node whose series is the candle pane, by its full path or
    /// as a card shows it; `capacity` bounds the retained tick count and `bucket_ms` is the chart's
    /// sample period.
    pub fn new(price_node: Option<&str>, capacity: usize, bucket_ms: i64) -> (r: Inner)
        requires
            capacity > 3,
            bucket_ms > 0,
        ensures
            r.wf(),
            r@ == blank(
                match price_node {
                    Some(p) => Some(shown_name(p@)),
                    None => None,
                },
                capacity as nat,
                bucket_ms,
            ),
    {
        let r = Inner {
            price_node: match price_node {
                Some(p) => Some(trim(p)),
                None => None,
            },
            capacity,
            bucket_ms,
            topology: Vec::new(),
            cost: Vec::new(),
            ticks: VecDeque::new(),
            opened: 0,
            fires: Vec::new(),
            keep: Vec::new(),
            fired: Vec::new(),
            sealed: false,
            dropped: 0,
            series: Vec::new(),
            cursor: 0,
        };
        assert(r@ =~= blank(
            match price_node {
                Some(p) => Some(shown_name(p@)),
                None => None,
            },
            capacity as nat,
            bucket_ms,
        ));
        r
    }

    /// Takes in the nodes that were stepped for the first time.
    fn learn(&mut self, metas: &Vec<Meta>)
        requires
            old(self)@.even(),
        ensures
            final(self)@ == with_nodes(old(self)@, metas.deep_view()),
            final(self).ticks == old(self).ticks,
            final(self).fired == old(self).fired,
    {
        let ghost was = *self;
        let mut k: usize = 0;
        assert(metas.deep_view().take(0) =~= Seq::empty());
        while k < metas.len()
            invariant
                k <= metas@.len(),
                self@ == with_nodes(was@, metas.deep_view().take(k as int)),
                self.ticks == was.ticks,
                self.fired == was.fired,
            decreases metas@.len() - k,
        {
            let ghost before = self@;
            let ghost here = metas.deep_view().take(k + 1);
            let topo: TopoNode = topo_of(&metas[k]);
            let series: SeriesOut = series_of(&topo, metas[k].clock_ms);
            self.series.push(series);
            self.topology.push(topo);
            self.cost.push(Cost::new());
            self.fires.push(0);
            self.keep.push(0);
            proof {
                assert(here.drop_last() =~= metas.deep_view().take(k as int));
                let m = metas@[k as int].deep_view();
                assert(here.last() == m);
                assert(self.topology.deep_view() =~= before.topology.push(m.topo()));
                assert(self.series.deep_view() =~= before.series.push(m.series()));
                assert(self.cost@ =~= before.cost.push(Cost::fresh()));
                assert(nats(self.fires@) =~= before.fires.push(0));
                assert(self.keep@ =~= before.keep.push(0));
            }
            k += 1;
        }
        assert(metas.deep_view().take(k as int) =~= metas.deep_view());
    }

    /// Counts a clocked tick's spans in.
    fn clock(&mut self, spans: &Vec<u64>) -> (r: Vec<(usize, u64)>)
        requires
            spans@.len() == old(self).cost@.len(),
            forall|i: int|
                #![trigger old(self).cost@[i]]
                0 <= i < old(self).cost@.len() ==> old(self).cost@[i].wf(),
        ensures
            r@ == closed_blocks(old(self).cost@, spans@, old(self).cost@.len()),
            final(self).cost@ == costed(old(self).cost@, Some(spans@)),
            *final(self) == (Inner { cost: final(self).cost, ..*old(self) }),
    {
        let ghost was = *self;
        let mut out: Vec<(usize, u64)> = Vec::new();
        let mut i: usize = 0;
        while i < spans.len()
            invariant
                i <= spans@.len() == self.cost@.len(),
                was.cost@.len() == spans@.len(),
                forall|j: int|
                    #![trigger was.cost@[j]]
                    0 <= j < was.cost@.len() ==> was.cost@[j].wf(),
                forall|j: int|
                    #![trigger self.cost@[j]]
                    0 <= j < i ==> self.cost@[j] == was.cost@[j].sampled(spans@[j]),
                forall|j: int|
                    #![trigger self.cost@[j]]
                    i <= j < was.cost@.len() ==> self.cost@[j] == was.cost@[j],
                *self == (Inner { cost: self.cost, ..was }),
                out@ == closed_blocks(was.cost@, spans@, i as nat),
            decreases spans@.len() - i,
        {
            let mut c: Cost = self.cost[i];
            assert(c == was.cost@[i as int]);
            match c.sample(spans[i]) {
                Some(ns) => {
                    out.push((i, ns));
                },
                None => {},
            }
            self.cost.set(i, c);
            i += 1;
        }
        assert(self.cost@ =~= costed(was.cost@, Some(spans@)));
        out
    }

    /// Stamps the tick's values on the series and counts the fires; hands back the tick's ranks.
    fn chart(&mut self, ts_ns: i64, acts: &Acts) -> (r: Vec<u8>)
        requires
            acts.legible(),
            old(self)@.ok(),
            !old(self).sealed,
            old(self).opened < usize::MAX,
        ensures
            r@ == ranks(old(self)@.fires, acts@),
            final(self)@ == (TapeView {
                fires: counted(old(self)@.fires, acts@),
                series: charted(
                    old(self)@.series,
                    acts@,
                    bucket(ts_ns, old(self).bucket_ms),
                ),
                ..old(self)@
            }),
            final(self).ticks == old(self).ticks,
            final(self).fired == old(self).fired,
    {
        let ghost was = *self;
        proof {
            lemma_bucket(ts_ns, self.bucket_ms);
        }
        let b: i64 = bucket_of(ts_ns, self.bucket_ms);
        let mut out: Vec<u8> = Vec::new();
        let mut i: usize = 0;
        while i < self.series.len()
            invariant
                acts.legible(),
                was@.ok(),
                !was.sealed,
                was.opened < usize::MAX,
                b == bucket(ts_ns, was.bucket_ms),
                i <= was.series@.len(),
                self.series@.len() == was.series@.len() == was.fires@.len() == self.fires@.len(),
                *self == (Inner { series: self.series, fires: self.fires, ..was }),
                out@ == ranks(was@.fires, acts@).take(i as int),
                forall|j: int|
                    #![trigger self.fires@[j]]
                    0 <= j < i ==> self.fires@[j] as nat == counted(was@.fires, acts@)[j],
                forall|j: int|
                    #![trigger self.fires@[j]]
                    i <= j < was.fires@.len() ==> self.fires@[j] == was.fires@[j],
                forall|j: int|
                    #![trigger self.series@[j]]
                    0 <= j < i ==> self.series@[j].deep_view() == charted(
                        was@.series,
                        acts@,
                        b as int,
                    )[j],
                forall|j: int|
                    #![trigger self.series@[j]]
                    i <= j < was.series@.len() ==> self.series@[j] == was.series@[j],
            decreases was.series@.len() - i,
        {
            let vals: Option<&[Bits]> = match acts.get(i) {
                Some(a) => a.vals,
                None => None,
            };
            let ghost mid = *self;
            match vals {
                Some(v) => {
                    proof {
                        assert(was@.fires[i as int] <= was@.opened);
                        assert(self.fires@[i as int] == was.fires@[i as int]);
                    }
                    out.push(rank_of(self.fires[i]));
                    let n: usize = self.fires[i] + 1;
                    self.fires.set(i, n);
                    stamp(&mut self.series[i], b, v);
                    proof {
                        assert(acts@[i as int].vals == Some(v@));
                    }
                },
                None => {
                    out.push(0);
                },
            }
            proof {
                let rs = ranks(was@.fires, acts@);
                assert(rs.take(i as int).push(rs[i as int]) =~= rs.take(i + 1));
                assert(self.series@[i as int].deep_view() == charted(
                    was@.series,
                    acts@,
                    b as int,
                )[i as int]);
                assert(self.fires@[i as int] as nat == counted(was@.fires, acts@)[i as int]);
            }
            i += 1;
        }
        proof {
            let rs = ranks(was@.fires, acts@);
            assert(rs.take(i as int) =~= rs);
            assert(nats(self.fires@) =~= counted(was@.fires, acts@));
            assert(self.series.deep_view() =~= charted(was@.series, acts@, b as int));
        }
        out
    }
}

/// The start of the chart bucket `ts_ns` falls in.
fn bucket_of(ts_ns: i64, bucket_ms: i64) -> (r: i64)
    requires
        bucket_ms > 0,
    ensures
        r == bucket(ts_ns, bucket_ms),
{
    let ms: i64 = ts_ns / 1_000_000;
    proof {
        lemma_bucket(ts_ns, bucket_ms);
        assert(ms == crate::model::millis(ts_ns));
    }
    match ms.checked_rem_euclid(bucket_ms) {
        Some(into) => {
            assert(into == ms as int % bucket_ms as int);
            ms - into
        },
        None => ms,
    }
}

/// Puts `vals` on a series for bucket `b`. A point that is not older takes them, rather than only an
/// equal one: a feed's timestamps do go backwards, and a chart refuses points that do not ascend.
fn stamp(s: &mut SeriesOut, b: i64, vals: &[Bits])
    ensures
        final(s).deep_view() == (crate::api_types::SeriesView {
            points: stamped(old(s).deep_view().points, b as int, vals@),
            ..old(s).deep_view()
        }),
{
    let ghost was = s.points.deep_view();
    let n: usize = s.points.len();
    let copy: Vec<Bits> = copied(vals);
    assert(copy.deep_view() =~= vals@);
    if n > 0 && s.points[n - 1].ts_ms >= b {
        let ts_ms: i64 = s.points[n - 1].ts_ms;
        s.points.set(n - 1, PointOut { ts_ms, vals: copy, detail: String::new() });
    } else {
        s.points.push(PointOut { ts_ms: b, vals: copy, detail: String::new() });
    }
    assert(s.points.deep_view() =~= stamped(was, b as int, vals@));
}

/// How many ticks have an id below `c`.
pub fn ticks_under(ticks: &VecDeque<Tick>, c: usize) -> (r: usize)
    requires
        climbing(ticks.deep_view()),
    ensures
        r == under(ticks.deep_view(), c as nat),
{
    let ghost tv = ticks.deep_view();
    let mut lo: usize = 0;
    let mut hi: usize = ticks.len();
    while lo < hi
        invariant
            tv == ticks.deep_view(),
            climbing(tv),
            lo <= hi <= ticks@.len(),
            forall|p: int| #![trigger tv[p]] 0 <= p < lo ==> tv[p].abs < c,
            forall|p: int| #![trigger tv[p]] hi <= p < tv.len() ==> tv[p].abs >= c,
        decreases hi - lo,
    {
        let mid: usize = lo + (hi - lo) / 2;
        assert(tv[mid as int].abs == ticks@[mid as int].abs);
        if ticks[mid].abs < c {
            assert forall|p: int| #![trigger tv[p]] 0 <= p <= mid implies tv[p].abs < c by {
                if p < mid {
                    assert(tv[p].abs < tv[mid as int].abs);
                }
            }
            lo = mid + 1;
        } else {
            assert forall|p: int| #![trigger tv[p]] mid <= p < tv.len() implies tv[p].abs >= c by {
                if p > mid {
                    assert(tv[mid as int].abs < tv[p].abs);
                }
            }
            hi = mid;
        }
    }
    proof {
        lemma_under(tv, c as nat);
        let u = under(tv, c as nat) as int;
        if u < lo {
            assert(tv[u].abs >= c);
        }
        if u > lo {
            assert(tv[lo as int].abs < c);
        }
    }
    lo
}

/// What each node claims of the first `n` ticks, and how many of them are claimed at all.
fn tally(ticks: &VecDeque<Tick>, n: usize, keep: &Vec<u8>) -> (r: (Vec<usize>, usize))
    requires
        n <= ticks@.len(),
        forall|p: int| #![trigger ticks@[p]] 0 <= p < n ==> ticks@[p].ranks@.len() <= keep@.len(),
    ensures
        nats(r.0@) == shares(rows(ticks.deep_view(), n as nat), keep@),
        r.1 == backbone(rows(ticks.deep_view(), n as nat), keep@),
{
    let ghost tv = ticks.deep_view();
    let mut counts: Vec<usize> = Vec::new();
    while counts.len() < keep.len()
        invariant
            counts@.len() <= keep@.len(),
            forall|j: int| #![trigger counts@[j]] 0 <= j < counts@.len() ==> counts@[j] == 0,
        decreases keep@.len() - counts@.len(),
    {
        counts.push(0);
    }
    let mut claimed_n: usize = 0;
    let mut p: usize = 0;
    while p < n
        invariant
            tv == ticks.deep_view(),
            p <= n <= ticks@.len(),
            counts@.len() == keep@.len(),
            forall|q: int|
                #![trigger ticks@[q]]
                0 <= q < n ==> ticks@[q].ranks@.len() <= keep@.len(),
            forall|j: int|
                #![trigger counts@[j]]
                0 <= j < keep@.len() ==> counts@[j] == share(rows(tv, p as nat), keep@, j),
            claimed_n == backbone(rows(tv, p as nat), keep@),
        decreases n - p,
    {
        let ghost done = rows(tv, p as nat);
        let ghost row = ticks@[p as int].ranks@;
        let ghost was = counts@;
        let t: &Tick = &ticks[p];
        let mut any: bool = false;
        let mut i: usize = 0;
        proof {
            lemma_backbone_bound(done, keep@);
            assert(ticks@[p as int].ranks@.len() <= keep@.len());
        }
        while i < t.ranks.len()
            invariant
                t.ranks@ == row,
                i <= row.len() <= keep@.len() == counts@.len(),
                was.len() == keep@.len(),
                p < usize::MAX,
                forall|j: int|
                    #![trigger was[j]]
                    0 <= j < keep@.len() ==> was[j] == share(done, keep@, j),
                done.len() == p,
                any == exists|j: int| 0 <= j < i && claims(row, keep@, j),
                forall|j: int|
                    #![trigger counts@[j]]
                    0 <= j < keep@.len() ==> counts@[j] == was[j] + if j < i && claims(
                        row,
                        keep@,
                        j,
                    ) {
                        1int
                    } else {
                        0int
                    },
            decreases row.len() - i,
        {
            assert(counts@[i as int] == was[i as int]);
            if t.ranks[i] > keep[i] {
                proof {
                    assert(was[i as int] == share(done, keep@, i as int));
                    lemma_share_bound(done, keep@, i as int);
                    assert(claims(row, keep@, i as int));
                }
                let c: usize = counts[i] + 1;
                counts.set(i, c);
                any = true;
            }
            i += 1;
        }
        proof {
            let next = rows(tv, (p + 1) as nat);
            assert(next.drop_last() =~= done);
            assert(next.last() == row);
            assert(any == claimed(row, keep@));
            assert forall|j: int| #![trigger counts@[j]] 0 <= j < keep@.len() implies counts@[j]
                == share(next, keep@, j) by {
                assert(was[j] == share(done, keep@, j));
            }
        }
        if any {
            claimed_n = claimed_n + 1;
        }
        p += 1;
    }
    assert(nats(counts@) =~= shares(rows(tv, n as nat), keep@));
    (counts, claimed_n)
}

/// The position of the largest entry, the last of them where several are.
fn greediest_of(counts: &Vec<usize>) -> (g: usize)
    requires
        counts@.len() > 0,
    ensures
        g == greediest(nats(counts@)),
        g < counts@.len(),
{
    let mut g: usize = 0;
    let mut i: usize = 1;
    while i < counts.len()
        invariant
            g < i <= counts@.len(),
            forall|j: int| #![trigger counts@[j]] 0 <= j < i ==> counts@[j] <= counts@[g as int],
            forall|j: int| #![trigger counts@[j]] g < j < i ==> counts@[j] < counts@[g as int],
        decreases counts@.len() - i,
    {
        if counts[i] >= counts[g] {
            g = i;
        }
        i += 1;
    }
    proof {
        let s = nats(counts@);
        assert forall|j: int| #![trigger s[j]] 0 <= j < s.len() implies s[j] <= s[g as int] by {
            assert(counts@[j] <= counts@[g as int]);
        }
        assert forall|j: int| #![trigger s[j]] g < j < s.len() implies s[j] < s[g as int] by {
            assert(counts@[j] < counts@[g as int]);
        }
        lemma_greediest_unique(s, g as int);
    }
    g
}

/// Raises the greediest node's exponent until the first `n` ticks' backbone is at most `limit`.
fn squeeze(ticks: &VecDeque<Tick>, n: usize, keep: &mut Vec<u8>, limit: usize)
    requires
        n <= ticks@.len(),
        forall|p: int|
            #![trigger ticks@[p]]
            0 <= p < n ==> ticks@[p].ranks@.len() <= old(keep)@.len(),
        crate::thinning::ranked(rows(ticks.deep_view(), n as nat)),
    ensures
        final(keep)@ == squeezed(rows(ticks.deep_view(), n as nat), old(keep)@, limit as nat),
        final(keep)@.len() == old(keep)@.len(),
{
    let ghost pre = rows(ticks.deep_view(), n as nat);
    let ghost start = keep@;
    loop
        invariant
            pre == rows(ticks.deep_view(), n as nat),
            crate::thinning::ranked(pre),
            n <= ticks@.len(),
            keep@.len() == start.len(),
            forall|p: int|
                #![trigger ticks@[p]]
                0 <= p < n ==> ticks@[p].ranks@.len() <= keep@.len(),
            squeezed(pre, keep@, limit as nat) == squeezed(pre, start, limit as nat),
        ensures
            keep@ == squeezed(pre, start, limit as nat),
            keep@.len() == start.len(),
        decreases crate::thinning::slack(keep@),
    {
        let (counts, claimed_n) = tally(ticks, n, keep);
        if claimed_n <= limit {
            break;
        }
        proof {
            lemma_over_raisable(pre, keep@, limit as nat);
            assert(nats(counts@).len() == keep@.len());
        }
        let g: usize = greediest_of(&counts);
        proof {
            crate::thinning::lemma_raised_slack(keep@, g as int);
        }
        let k: u8 = keep[g] + 1;
        let ghost was = keep@;
        keep.set(g, k);
        assert(keep@ =~= raised(was, g as int));
    }
}

/// Whether some node claims the row.
fn is_claimed(row: &Vec<u8>, keep: &Vec<u8>) -> (r: bool)
    ensures
        r == claimed(row@, keep@),
{
    let mut i: usize = 0;
    while i < row.len() && i < keep.len()
        invariant
            i <= row@.len(),
            i <= keep@.len(),
            forall|j: int| 0 <= j < i ==> !claims(row@, keep@, j),
        decreases row@.len() - i,
    {
        if row[i] > keep[i] {
            assert(claims(row@, keep@, i as int));
            return true;
        }
        i += 1;
    }
    false
}

impl Inner {
    /// Makes room: keeps the newest half of the buffer whole, plus over everything before it every
    /// tick some node fired on at a rank the squeeze has not reached. Decimating by tick index instead
    /// would destroy the rare events a tape is scrubbed for.
    ///
    /// An exponent is only ever raised, and none is where what they claim of the ticks before the whole
    /// stretch is a quarter of the buffer already. Hands back the act buffers of the ticks it dropped.
    pub fn thin(&mut self) -> (out: Vec<Acts>)
        requires
            old(self)@.sound(),
            all_legible(old(self).ticks@),
        ensures
            final(self).wf(),
            final(self)@ == thinned(old(self)@),
            below(old(self)@.keep, final(self)@.keep),
            backbone(rows(old(self)@.ticks, under(old(self)@.ticks, whole(old(self)@))), old(self)@.keep)
                <= old(self)@.capacity / 4 ==> final(self)@.keep == old(self)@.keep,
            out.deep_view() == freed(old(self)@.ticks, whole(old(self)@), settled(old(self)@)),
            forall|k: int| #![trigger out@[k]] 0 <= k < out@.len() ==> out@[k].legible(),
    {
        let ghost was = *self;
        let from: usize = self.opened.saturating_sub(self.capacity / 2);
        assert(from == whole(was@));
        let n: usize = ticks_under(&self.ticks, from);
        proof {
            lemma_under(was@.ticks, from as nat);
            lemma_rows_ranked(was@, n as nat);
            assert forall|p: int| #![trigger self.ticks@[p]] 0 <= p < n implies self.ticks@[p].ranks@.len()
                <= self.keep@.len() by {
                assert(was@.ticks[p].ok(was@.nodes()));
            }
        }
        squeeze(&self.ticks, n, &mut self.keep, self.capacity / 4);
        let ghost keep = settled(was@);
        let ghost all = was.ticks@;
        let mut out: Vec<Acts> = Vec::new();
        let mut left: VecDeque<Tick> = VecDeque::new();
        let ghost mut k: int = 0;
        assert(out.deep_view() =~= freed(was@.ticks.take(0), from as nat, keep));
        assert(left.deep_view() =~= kept(was@.ticks.take(0), from as nat, keep));
        loop
            invariant
                0 <= k <= all.len(),
                all == was.ticks@,
                all_legible(all),
                keep == settled(was@),
                self.ticks@ == all.skip(k),
                *self == (Inner { ticks: self.ticks, keep: self.keep, ..was }),
                self.keep@ == keep,
                out.deep_view() == freed(was@.ticks.take(k), from as nat, keep),
                left.deep_view() == kept(was@.ticks.take(k), from as nat, keep),
                all_legible(left@),
                forall|j: int| #![trigger out@[j]] 0 <= j < out@.len() ==> out@[j].legible(),
            ensures
                k == all.len(),
            decreases all.len() - k,
        {
            match self.ticks.pop_front() {
                Some(t) => {
                    let ghost to = was@.ticks.take(k + 1);
                    proof {
                        assert(all.skip(k)[0] == all[k]);
                        assert(all.skip(k).subrange(1, all.skip(k).len() as int) =~= all.skip(k + 1));
                        assert(t == all[k]);
                        assert(to.drop_last() =~= was@.ticks.take(k));
                        assert(to.last() == t.deep_view());
                        assert(all[k].legible());
                    }
                    let ghost left_was = left.deep_view();
                    let ghost out_was = out.deep_view();
                    if t.abs >= from || is_claimed(&t.ranks, &self.keep) {
                        left.push_back(t);
                        assert(left.deep_view() =~= left_was.push(to.last()));
                    } else {
                        out.push(t.acts);
                        assert(out.deep_view() =~= out_was.push(to.last().acts));
                    }
                    proof {
                        k = k + 1;
                    }
                },
                None => {
                    break;
                },
            }
        }
        assert(was@.ticks.take(k) =~= was@.ticks);
        self.fired = index(&left);
        self.ticks = left;
        assert(self@ =~= thinned(was@));
        proof {
            lemma_thinned_ok(was@);
            exponents_only_rise(was@);
        }
        out
    }
}

/// Ticks absorbed per hold of the tape, at most: bounded because it is also the width a reader can be
/// made to wait behind.
pub const BATCH: usize = 64;

/// [`BATCH`], cut down to the room a thinning pass leaves, which keeps at most one such pass inside
/// any one batch.
pub fn batch_cap(capacity: usize) -> (r: usize)
    ensures
        r == crate::model::batch_width(capacity as nat),
{
    let quarter: usize = capacity / 4;
    if quarter == 0 {
        1
    } else if quarter < BATCH {
        quarter
    } else {
        BATCH
    }
}

/// How many freed buffers the way back to the recorder holds: what one thinning pass can free, but for
/// one buffer at an odd capacity, which frees `capacity - capacity / 2` at most.
pub fn recycle_depth(capacity: usize) -> (r: usize)
    ensures
        r == capacity / 2,
{
    capacity / 2
}

impl Inner {
    /// Whether the tape takes the tick: its recording is not over, and a clocked tick clocks every node
    /// in it.
    pub fn takes(&self, msg: &TickMsg) -> (r: bool)
        requires
            self.wf(),
        ensures
            r == (open_to(self@, msg@) && self.opened < usize::MAX),
    {
        let told: usize = match &msg.meta {
            Some(m) => m.len(),
            None => 0,
        };
        let clocked: bool = match &msg.spans {
            Some(xs) => xs.len() >= told && xs.len() - told == self.cost.len(),
            None => true,
        };
        !self.sealed && clocked && self.opened < usize::MAX
    }

    /// Takes one finished tick onto the tape, and makes a thinning pass where that fills the buffer.
    pub fn absorb(&mut self, msg: TickMsg) -> (r: Absorbed)
        requires
            old(self).wf(),
            old(self).opened < usize::MAX,
            msg.acts.legible(),
            open_to(old(self)@, msg@),
        ensures
            final(self).wf(),
            final(self)@ == absorbed(old(self)@, msg@),
            r.freed.deep_view() == absorb_freed(old(self)@, msg@),
            r.closed@ == absorb_closed(old(self)@, msg@),
            forall|k: int| #![trigger r.freed@[k]] 0 <= k < r.freed@.len() ==> r.freed@[k].legible(),
    {
        let ghost was = self@;
        let ghost mv = msg@;
        let ghost named = with_nodes(was, mv.meta);
        proof {
            lemma_noted_ok(was, mv);
            lemma_held_tick_ok(was, mv);
            absorbing_keeps_a_tape(was, mv);
            lemma_landed_sound(was, mv);
            lemma_with_nodes(was, mv.meta);
        }
        match &msg.meta {
            Some(metas) => {
                self.learn(metas);
            },
            None => {
                assert(mv.meta =~= Seq::empty());
            },
        }
        assert(self@ == named);
        let closed: Vec<(usize, u64)> = match &msg.spans {
            Some(spans) => {
                proof {
                    assert forall|i: int| #![trigger self.cost@[i]] 0 <= i < self.cost@.len() implies self.cost@[i].wf() by {
                        assert(named.cost[i].wf());
                    }
                }
                self.clock(spans)
            },
            None => Vec::new(),
        };
        let ghost clocked = TapeView { cost: costed(named.cost, mv.spans), ..named };
        proof {
            assert(self@ =~= clocked);
            assert(closed@ =~= absorb_closed(was, mv));
            assert forall|i: int| #![trigger clocked.cost[i]] 0 <= i < clocked.cost.len() implies clocked.cost[i].wf() by {
                assert(noted(was, mv).cost[i].wf());
            }
            lemma_same_but_cost(named, clocked);
        }
        let TickMsg { ts_ns, acts, meta: _, spans: _ } = msg;
        let ranks: Vec<u8> = self.chart(ts_ns, &acts);
        let ghost before = self@;
        let abs: usize = self.opened;
        self.opened = self.opened + 1;
        let p: usize = self.ticks.len();
        let ghost t = held_tick(was, mv);
        assert(t.ranks =~= ranks@);
        index_tick(&mut self.fired, &ranks, p, Ghost(before.ticks), Ghost(t));
        let ghost held = self.ticks@;
        self.ticks.push_back(Tick { abs, ts_ns, acts, ranks });
        proof {
            assert(self.ticks.deep_view() =~= before.ticks.push(t));
            assert(self@ =~= landed(was, mv));
            assert forall|q: int| #![trigger self.ticks@[q]] 0 <= q < self.ticks@.len() implies self.ticks@[q].legible() by {
                if q < held.len() {
                    assert(held[q].legible());
                }
            }
        }
        let mut freed: Vec<Acts> = Vec::new();
        if self.ticks.len() == self.capacity {
            freed = self.thin();
        }
        assert(freed.deep_view() =~= absorb_freed(was, mv));
        Absorbed { freed, closed }
    }

    /// Takes a batch of finished ticks onto the tape, in order, as far as it takes them: what is left
    /// in the batch begins with a tick the tape does not take.
    pub fn absorb_all(&mut self, batch: &mut VecDeque<TickMsg>) -> (r: Absorbed)
        requires
            old(self).wf(),
            forall|k: int|
                #![trigger old(batch)@[k]]
                0 <= k < old(batch)@.len() ==> old(batch)@[k].acts.legible(),
        ensures
            final(self).wf(),
            final(batch)@.is_suffix_of(old(batch)@),
            ({
                let took = old(batch)@.len() - final(batch)@.len();
                let msgs = messages(old(batch)@).take(took);
                &&& open_to_all(old(self)@, msgs)
                &&& final(self)@ == absorbed_all(old(self)@, msgs)
                &&& r.freed.deep_view() == freed_all(old(self)@, msgs)
                &&& r.closed@ == closed_all(old(self)@, msgs)
            }),
            final(batch)@.len() > 0 ==> !(open_to(final(self)@, final(batch)@[0]@)
                && final(self).opened < usize::MAX),
            forall|k: int| #![trigger r.freed@[k]] 0 <= k < r.freed@.len() ==> r.freed@[k].legible(),
    {
        let ghost was = self@;
        let ghost all = batch@;
        let ghost mv = messages(all);
        let mut freed: Vec<Acts> = Vec::new();
        let mut closed: Vec<(usize, u64)> = Vec::new();
        let ghost mut k: int = 0;
        proof {
            assert(mv.take(0) =~= Seq::empty());
            assert(all.skip(0) =~= all);
            assert(freed.deep_view() =~= freed_all(was, mv.take(0)));
            assert(closed@ =~= closed_all(was, mv.take(0)));
        }
        loop
            invariant
                0 <= k <= all.len(),
                mv == messages(all),
                self.wf(),
                batch@ == all.skip(k),
                forall|j: int| #![trigger all[j]] 0 <= j < all.len() ==> all[j].acts.legible(),
                open_to_all(was, mv.take(k)),
                self@ == absorbed_all(was, mv.take(k)),
                freed.deep_view() == freed_all(was, mv.take(k)),
                closed@ == closed_all(was, mv.take(k)),
                forall|j: int| #![trigger freed@[j]] 0 <= j < freed@.len() ==> freed@[j].legible(),
            ensures
                batch@.len() > 0 ==> !(open_to(self@, batch@[0]@) && self.opened < usize::MAX),
            decreases all.len() - k,
        {
            if batch.len() == 0 || !self.takes(&batch[0]) {
                break;
            }
            match batch.pop_front() {
                Some(msg) => {
                    proof {
                        assert(all.skip(k)[0] == all[k]);
                        assert(all.skip(k).subrange(1, all.skip(k).len() as int) =~= all.skip(
                            k + 1,
                        ));
                        assert(mv.take(k + 1).drop_last() =~= mv.take(k));
                        assert(mv.take(k + 1).last() == mv[k]);
                        lemma_with_nodes(self@, mv[k].meta);
                    }
                    let ghost freed_was = freed.deep_view();
                    let ghost freed_list = freed@;
                    let Absorbed { freed: mut f, closed: mut c } = self.absorb(msg);
                    let ghost fv = f.deep_view();
                    let ghost fl = f@;
                    freed.append(&mut f);
                    closed.append(&mut c);
                    proof {
                        assert(freed@ =~= freed_list + fl);
                        assert(freed.deep_view() =~= freed_was + fv);
                        k = k + 1;
                    }
                },
                None => {
                    break;
                },
            }
        }
        Absorbed { freed, closed }
    }

    /// Sets node `i`'s cost estimate.
    pub fn price(&mut self, i: usize, ns: Bits)
        requires
            old(self).wf(),
            i < old(self)@.nodes(),
        ensures
            final(self).wf(),
            final(self)@ == (TapeView {
                cost: old(self)@.cost.update(
                    i as int,
                    Cost { ns: Some(ns), ..old(self)@.cost[i as int] },
                ),
                ..old(self)@
            }),
    {
        let ghost was = self@;
        let c: Cost = self.cost[i];
        self.cost.set(i, Cost { block_n: c.block_n, block_min: c.block_min, ns: Some(ns) });
        proof {
            let now = self@;
            assert(now =~= TapeView {
                cost: was.cost.update(i as int, Cost { ns: Some(ns), ..was.cost[i as int] }),
                ..was
            });
            if !was.sealed {
                assert forall|j: int| #![trigger now.cost[j]] 0 <= j < now.cost.len() implies now.cost[j].wf() by {
                    assert(was.cost[j].wf());
                }
            }
            lemma_same_but_cost(was, now);
        }
    }

    /// The recording is over: the last tick becomes addressable and the total stops growing.
    pub fn seal(&mut self)
        requires
            old(self).wf(),
        ensures
            final(self).wf(),
            final(self)@ == (TapeView { sealed: true, ..old(self)@ }),
    {
        let ghost was = self@;
        self.sealed = true;
        proof {
            assert(self@ =~= TapeView { sealed: true, ..was });
            lemma_same_but_cost(was, self@);
        }
    }

    /// Takes over the recorder's drop tally.
    pub fn tally_drops(&mut self, dropped: usize)
        requires
            old(self).wf(),
        ensures
            final(self).wf(),
            final(self)@ == (TapeView { dropped: dropped as nat, ..old(self)@ }),
    {
        let ghost was = self@;
        self.dropped = dropped;
        proof {
            assert(self@ =~= TapeView { dropped: dropped as nat, ..was });
            lemma_same_but_cost(was, self@);
        }
    }
}

/// Costs, the drop tally and the cursor are free of the rest, and sealing asks for nothing.
pub proof fn lemma_same_but_cost(a: TapeView, b: TapeView)
    requires
        a.ok(),
        b == (TapeView {
            cost: b.cost,
            sealed: b.sealed,
            dropped: b.dropped,
            cursor: b.cursor,
            ..a
        }),
        a.sealed ==> b.sealed,
        b.cost.len() == a.cost.len(),
        !a.sealed ==> forall|j: int| #![trigger b.cost[j]] 0 <= j < b.cost.len() ==> b.cost[j].wf(),
    ensures
        b.ok(),
        a.sound() && !a.sealed ==> b.sound(),
{
    assert(b.climbs()) by {
        assert(a.climbs());
    }
    if !a.sealed {
        assert forall|i: int, x: int, y: int|
            #![trigger b.series[i].points[x], b.series[i].points[y]]
            0 <= i < b.series.len() && 0 <= x < y < b.series[i].points.len() implies b.series[i].points[x].ts_ms
            < b.series[i].points[y].ts_ms by {
            assert(a.series[i].points[x].ts_ms < a.series[i].points[y].ts_ms);
        }
        assert forall|p: int| #![trigger b.ticks[p]] 0 <= p < b.ticks.len() implies b.ticks[p].ok(
            b.nodes(),
        ) by {
            assert(a.ticks[p].ok(a.nodes()));
        }
        assert forall|i: int| #![trigger b.keep[i]] 0 <= i < b.keep.len() implies b.keep[i]
            <= FIRST by {
            assert(a.keep[i] <= FIRST);
        }
        assert forall|i: int| #![trigger b.fires[i]] 0 <= i < b.fires.len() implies b.fires[i]
            <= b.opened by {
            assert(a.fires[i] <= a.opened);
        }
    }
}

/// What the messages of a batch say.
pub open spec fn messages(batch: Seq<TickMsg>) -> Seq<MsgView> {
    Seq::new(batch.len(), |k: int| batch[k]@)
}

/// What a tick's columns take up: room allocated rather than filled, since the columns arrive already
/// grown and what a tick occupies is what it holds onto.
#[derive(Clone, Copy, Debug, PartialEq, Eq)]
pub struct Footprint {
    pub outs: usize,
    pub vals: usize,
    pub jac: usize,
    pub block: usize,
    pub widths: usize,
    pub exact: usize,
    pub ran: usize,
    pub ends: usize,
    pub ranks: usize,
}

impl Footprint {
    /// The bytes of a tick of `fixed` bytes with these columns, by the size of a machine word and of
    /// one node's ends.
    pub open spec fn size(self, fixed: u32, word: u32, ends: u32) -> int {
        fixed + self.outs + 8 * (self.vals + self.jac + self.block) + word * self.widths + self.exact
            + self.ran + ends * self.ends + self.ranks
    }

    /// The bytes of a tick of `fixed` bytes with these columns, by the size of a machine word and of
    /// one node's ends.
    pub fn bytes(&self, fixed: u32, word: u32, ends: u32) -> (r: u128)
        ensures
            r == self.size(fixed, word, ends),
    {
        proof {
            assert(word * self.widths <= 0xffff_ffff * 0xffff_ffff_ffff_ffff) by (nonlinear_arith)
                requires
                    word <= 0xffff_ffff,
                    self.widths <= 0xffff_ffff_ffff_ffff,
            ;
            assert(ends * self.ends <= 0xffff_ffff * 0xffff_ffff_ffff_ffff) by (nonlinear_arith)
                requires
                    ends <= 0xffff_ffff,
                    self.ends <= 0xffff_ffff_ffff_ffff,
            ;
        }
        let columns: u128 = 8 * (self.vals as u128 + self.jac as u128 + self.block as u128);
        let widths: u128 = word as u128 * self.widths as u128;
        let cuts: u128 = ends as u128 * self.ends as u128;
        fixed as u128 + self.outs as u128 + columns + widths + self.exact as u128 + self.ran as u128
            + cuts + self.ranks as u128
    }

    /// Each is the room of its own column: what asking that column for it gave.
    pub closed spec fn measures(self, t: Tick) -> bool {
        &&& call_ensures(text_room_of, (&t.acts.outs,), self.outs)
        &&& call_ensures(room_of::<Bits>, (&t.acts.vals,), self.vals)
        &&& call_ensures(room_of::<Bits>, (&t.acts.jac,), self.jac)
        &&& call_ensures(room_of::<Bits>, (&t.acts.block,), self.block)
        &&& call_ensures(room_of::<usize>, (&t.acts.widths,), self.widths)
        &&& call_ensures(room_of::<bool>, (&t.acts.exact,), self.exact)
        &&& call_ensures(room_of::<bool>, (&t.acts.ran,), self.ran)
        &&& call_ensures(room_of::<Ends>, (&t.acts.ends,), self.ends)
        &&& call_ensures(room_of::<u8>, (&t.ranks,), self.ranks)
    }

    /// There is room at least for what the columns hold.
    pub open spec fn covers(self, t: Tick) -> bool {
        &&& self.outs >= vstd::utf8::encode_utf8(t.acts.outs@).len()
        &&& self.vals >= t.acts.vals@.len()
        &&& self.jac >= t.acts.jac@.len()
        &&& self.block >= t.acts.block@.len()
        &&& self.widths >= t.acts.widths@.len()
        &&& self.exact >= t.acts.exact@.len()
        &&& self.ran >= t.acts.ran@.len()
        &&& self.ends >= t.acts.ends@.len()
        &&& self.ranks >= t.ranks@.len()
    }
}

/// The bytes of all the ticks of `fs`.
pub open spec fn sizes(fs: Seq<Footprint>, fixed: u32, word: u32, ends: u32) -> int
    decreases fs.len(),
{
    if fs.len() == 0 {
        0
    } else {
        sizes(fs.drop_last(), fixed, word, ends) + fs.last().size(fixed, word, ends)
    }
}

proof fn lemma_sizes_grow(fs: Seq<Footprint>, k: int, fixed: u32, word: u32, ends: u32)
    requires
        0 <= k <= fs.len(),
    ensures
        sizes(fs.take(k), fixed, word, ends) <= sizes(fs, fixed, word, ends),
    decreases fs.len(),
{
    if k < fs.len() {
        lemma_sizes_grow(fs.drop_last(), k, fixed, word, ends);
        assert(fs.drop_last().take(k) =~= fs.take(k));
        let f = fs.last();
        assert(0 <= word * f.widths) by (nonlinear_arith)
            requires
                0 <= word,
                0 <= f.widths,
        ;
        assert(0 <= ends * f.ends) by (nonlinear_arith)
            requires
                0 <= ends,
                0 <= f.ends,
        ;
    } else {
        assert(fs.take(k) =~= fs);
    }
}

/// The bytes of ticks of `fixed` bytes with these columns together, `None` only where the sum does not
/// fit the width it is told in.
pub fn total_bytes(fs: &[Footprint], fixed: u32, word: u32, ends: u32) -> (r: Option<u128>)
    ensures
        match r {
            Some(n) => n == sizes(fs@, fixed, word, ends),
            None => sizes(fs@, fixed, word, ends) > u128::MAX,
        },
{
    let mut total: u128 = 0;
    let mut k: usize = 0;
    while k < fs.len()
        invariant
            k <= fs@.len(),
            total == sizes(fs@.take(k as int), fixed, word, ends),
        decreases fs@.len() - k,
    {
        assert(fs@.take(k + 1).drop_last() =~= fs@.take(k as int));
        match total.checked_add(fs[k].bytes(fixed, word, ends)) {
            Some(n) => {
                total = n;
            },
            None => {
                proof {
                    lemma_sizes_grow(fs@, k + 1, fixed, word, ends);
                }
                return None;
            },
        }
        k += 1;
    }
    assert(fs@.take(k as int) =~= fs@);
    Some(total)
}

/// `Vec::capacity`: how many elements there is room for, at least as many as there are. How much more
/// is the allocator's to say.
#[verifier::external_body]
fn room_of<T>(v: &Vec<T>) -> (r: usize)
    ensures
        r >= v@.len(),
{
    v.capacity()
}

/// `String::capacity`: how many bytes there is room for, at least as many as the text takes. How much
/// more is the allocator's to say.
#[verifier::external_body]
fn text_room_of(s: &String) -> (r: usize)
    ensures
        r >= vstd::utf8::encode_utf8(s@).len(),
{
    s.capacity()
}

impl Inner {
    /// What each retained tick takes up: the reading the capacity is bought with. The series and the
    /// topology are not in it, neither being bounded by the capacity. Each number is what its own column
    /// answers; how far past the column's length that is, the allocator says.
    pub fn footprints(&self) -> (r: Vec<Footprint>)
        ensures
            r@.len() == self.ticks@.len(),
            forall|p: int|
                #![trigger r@[p]]
                0 <= p < r@.len() ==> r@[p].measures(self.ticks@[p]) && r@[p].covers(self.ticks@[p]),
    {
        let mut out: Vec<Footprint> = Vec::new();
        let mut p: usize = 0;
        while p < self.ticks.len()
            invariant
                p <= self.ticks@.len(),
                out@.len() == p,
                forall|q: int|
                    #![trigger out@[q]]
                    0 <= q < p ==> out@[q].measures(self.ticks@[q]) && out@[q].covers(self.ticks@[q]),
            decreases self.ticks@.len() - p,
        {
            let t: &Tick = &self.ticks[p];
            out.push(
                Footprint {
                    outs: text_room_of(&t.acts.outs),
                    vals: room_of(&t.acts.vals),
                    jac: room_of(&t.acts.jac),
                    block: room_of(&t.acts.block),
                    widths: room_of(&t.acts.widths),
                    exact: room_of(&t.acts.exact),
                    ran: room_of(&t.acts.ran),
                    ends: room_of(&t.acts.ends),
                    ranks: room_of(&t.ranks),
                },
            );
            p += 1;
        }
        out
    }
}

} // verus!
