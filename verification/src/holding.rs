//! The laws of the models: what each value is said to be is what it holds, field by field.
use vstd::prelude::*;

use crate::acts::Acts;
use crate::api_types::{
    Activation, ActivationFrame, DayOut, ExactBlock, FidelityOut, FidelityView, GuideOut, PlotOut,
    PointOut, SeriesOut, TopoNode,
};
use crate::board::{Board, Dock};
use crate::file::TapeFile;
use crate::recorder::Recorder;
use crate::session::{ReplaySession, Sampler, SessionFrame};
use crate::tape::{Inner, Meta, Tick, TickMsg};

verus! {

/// The texts, one for one.
pub open spec fn spells(s: Seq<Seq<char>>, v: Seq<String>) -> bool {
    s.len() == v.len() && forall|k: int| #![trigger s[k]] 0 <= k < v.len() ==> s[k] == v[k]@
}

/// A node of the graph is what it holds.
pub proof fn a_node_is_what_it_holds(n: TopoNode, k: int)
    ensures
        n.deep_view().node == n.node@,
        spells(n.deep_view().deps, n.deps@),
        spells(n.deep_view().gates, n.gates@),
        n.deep_view().dims == n.dims@,
        n.deep_view().plots.len() == n.plots@.len(),
        0 <= k < n.plots@.len() ==> n.deep_view().plots[k] == n.plots@[k].deep_view(),
        n.deep_view().cost_ns == n.cost_ns,
        n.deep_view().fidelity == n.fidelity.deep_view(),
        n.deep_view().deriv is Some <==> n.deriv is Some,
        n.deriv matches Some(d) ==> n.deep_view().deriv == Some(d@),
{
    assert(n.deep_view().dims =~= n.dims@);
}

/// A plot is what it holds.
pub proof fn a_plot_is_what_it_holds(p: PlotOut, g: GuideOut, k: int)
    ensures
        p.deep_view().slots.len() == p.slots@.len(),
        0 <= k < p.slots@.len() ==> p.deep_view().slots[k] == p.slots@[k],
        p.deep_view().range == p.range,
        p.deep_view().guides.len() == p.guides@.len(),
        0 <= k < p.guides@.len() ==> p.deep_view().guides[k] == p.guides@[k].deep_view(),
        p.deep_view().labels.len() == p.labels@.len(),
        0 <= k < p.labels@.len() ==> spells(p.deep_view().labels[k], p.labels@[k]@),
        p.deep_view().inks.len() == p.inks@.len(),
        0 <= k < p.inks@.len() ==> p.deep_view().inks[k] == p.inks@[k],
        p.deep_view().overlay == p.overlay,
        p.deep_view().solo == p.solo,
        p.deep_view().bars == p.bars,
        p.deep_view().candles == p.candles,
        g.deep_view().label == g.label@,
        g.deep_view().value == g.value,
        g.deep_view().ink == g.ink,
{
}

/// How far a node is exact is what it says.
pub proof fn a_fidelity_is_what_it_says(f: FidelityOut)
    ensures
        f is Exact <==> f.deep_view() is Exact,
        f matches FidelityOut::Partial { omits } ==> f.deep_view() == (FidelityView::Partial {
            omits: omits@,
        }),
        f matches FidelityOut::Opaque { why } ==> f.deep_view() == (FidelityView::Opaque { why: why@ }),
{
}

/// A series and its points are what they hold.
pub proof fn a_series_is_what_it_holds(s: SeriesOut, p: PointOut, d: DayOut, k: int)
    ensures
        s.deep_view().node == s.node@,
        spells(s.deep_view().deps, s.deps@),
        spells(s.deep_view().gates, s.gates@),
        s.deep_view().dims == s.dims@,
        s.deep_view().plots.len() == s.plots@.len(),
        0 <= k < s.plots@.len() ==> s.deep_view().plots[k] == s.plots@[k].deep_view(),
        s.deep_view().points.len() == s.points@.len(),
        0 <= k < s.points@.len() ==> s.deep_view().points[k] == s.points@[k].deep_view(),
        s.deep_view().clock_ms == s.clock_ms,
        p.deep_view().ts_ms == p.ts_ms,
        p.deep_view().vals == p.vals@,
        p.deep_view().detail == p.detail@,
        d.deep_view().series.len() == d.series@.len(),
        0 <= k < d.series@.len() ==> d.deep_view().series[k] == d.series@[k].deep_view(),
        d.deep_view().price_node is Some <==> d.price_node is Some,
        d.price_node matches Some(n) ==> d.deep_view().price_node == Some(n@),
{
    assert(s.deep_view().dims =~= s.dims@);
    assert(p.deep_view().vals =~= p.vals@);
}

/// An activation is what it holds.
pub proof fn an_activation_is_what_it_holds(a: Activation, b: ExactBlock)
    ensures
        a.deep_view().node == a.node@,
        spells(a.deep_view().deps, a.deps@),
        spells(a.deep_view().gates, a.gates@),
        a.deep_view().out == a.out@,
        a.deep_view().detail == a.detail@,
        a.deep_view().ran == a.ran,
        a.deep_view().fired == a.fired,
        a.deep_view().dims == a.dims@,
        a.deep_view().vals is Some <==> a.vals is Some,
        a.vals matches Some(v) ==> a.deep_view().vals == Some(v@),
        a.deep_view().jac is Some <==> a.jac is Some,
        a.jac matches Some(j) ==> a.deep_view().jac == Some(j@),
        a.deep_view().exact_block is Some <==> a.exact_block is Some,
        a.exact_block matches Some(x) ==> a.deep_view().exact_block == Some(x.deep_view()),
        b.deep_view().cols == b.cols@,
        b.deep_view().widths == b.widths@,
        a.deep_view().cost_ns == a.cost_ns,
        a.deep_view().exact == a.exact,
{
    assert(a.deep_view().dims =~= a.dims@);
}

/// A frame is what it holds.
pub proof fn a_frame_is_what_it_holds(f: ActivationFrame, k: int)
    ensures
        f.deep_view().tick == f.tick,
        f.deep_view().total == f.total,
        f.deep_view().sealed == f.sealed,
        f.deep_view().dropped == f.dropped,
        f.deep_view().pending == f.pending,
        f.deep_view().found == f.found,
        f.deep_view().gap == f.gap,
        f.deep_view().ts_ns == f.ts_ns,
        f.deep_view().activations.len() == f.activations@.len(),
        0 <= k < f.activations@.len() ==> f.deep_view().activations[k]
            == f.activations@[k].deep_view(),
{
}

/// A tape and a tape's file are what they hold; a file's tape is over.
pub proof fn a_tape_is_what_it_holds(t: Inner, f: TapeFile, k: int)
    ensures
        t@.price_node is Some <==> t.price_node is Some,
        t.price_node matches Some(n) ==> t@.price_node == Some(n@),
        t@.capacity == t.capacity,
        t@.bucket_ms == t.bucket_ms,
        t@.topology.len() == t.topology@.len(),
        0 <= k < t.topology@.len() ==> t@.topology[k] == t.topology@[k].deep_view(),
        t@.cost == t.cost@,
        t@.ticks.len() == t.ticks@.len(),
        0 <= k < t.ticks@.len() ==> t@.ticks[k] == t.ticks@[k].deep_view(),
        t@.opened == t.opened,
        t@.fires.len() == t.fires@.len(),
        0 <= k < t.fires@.len() ==> t@.fires[k] == t.fires@[k],
        t@.keep == t.keep@,
        t@.sealed == t.sealed,
        t@.dropped == t.dropped,
        t@.series.len() == t.series@.len(),
        0 <= k < t.series@.len() ==> t@.series[k] == t.series@[k].deep_view(),
        t@.cursor == t.cursor,
        f@.price_node is Some <==> f.price_node is Some,
        f.price_node matches Some(n) ==> f@.price_node == Some(n@),
        f@.capacity == f.capacity,
        f@.bucket_ms == f.bucket_ms,
        f@.topology.len() == f.topology@.len(),
        0 <= k < f.topology@.len() ==> f@.topology[k] == f.topology@[k].deep_view(),
        f@.cost == f.cost@,
        f@.ticks.len() == f.ticks@.len(),
        0 <= k < f.ticks@.len() ==> f@.ticks[k] == f.ticks@[k].deep_view(),
        f@.opened == f.opened,
        f@.fires.len() == f.fires@.len(),
        0 <= k < f.fires@.len() ==> f@.fires[k] == f.fires@[k],
        f@.keep == f.keep@,
        f@.sealed,
        f@.dropped == f.dropped,
        f@.series.len() == f.series@.len(),
        0 <= k < f.series@.len() ==> f@.series[k] == f.series@[k].deep_view(),
        f@.cursor == f.cursor,
{
}

/// A tick, the message it came by and what a node told of itself are what they hold.
pub proof fn a_tick_is_what_it_holds(t: Tick, m: TickMsg, n: Meta, k: int)
    ensures
        t.deep_view().abs == t.abs,
        t.deep_view().ts_ns == t.ts_ns,
        t.deep_view().acts == t.acts@,
        t.deep_view().ranks == t.ranks@,
        m@.ts_ns == m.ts_ns,
        m@.acts == m.acts@,
        m.meta is None ==> m@.meta.len() == 0,
        m.meta matches Some(v) ==> m@.meta.len() == v@.len() && (0 <= k < v@.len() ==> m@.meta[k]
            == v@[k].deep_view()),
        m@.spans is Some <==> m.spans is Some,
        m.spans matches Some(s) ==> m@.spans == Some(s@),
        n.deep_view().node == n.node@,
        n.deep_view().deps.len() == n.deps@.len(),
        0 <= k < n.deps@.len() ==> n.deep_view().deps[k] == n.deps@[k]@,
        n.deep_view().gates == n.gates@,
        n.deep_view().dims == n.dims@,
        n.deep_view().plots.len() == n.plots@.len(),
        0 <= k < n.plots@.len() ==> n.deep_view().plots[k] == n.plots@[k].deep_view(),
        n.deep_view().clock_ms == n.clock_ms,
        n.deep_view().fidelity == n.fidelity.deep_view(),
        n.deep_view().deriv is Some <==> n.deriv is Some,
        n.deriv matches Some(d) ==> n.deep_view().deriv == Some(d@),
{
}

/// The flags and the number of acts are those of the columns.
pub proof fn acts_are_what_they_hold(a: Acts, i: int)
    ensures
        a@.len() == a.ends@.len(),
        0 <= i < a.ends@.len() ==> a@[i].ran == a.ran@[i] && a@[i].exact == a.exact@[i],
{
}

/// A recorder is what it holds.
pub proof fn a_recorder_is_what_it_holds(r: Recorder, k: int)
    ensures
        r@.mode == r.mode,
        r@.raw.len() == r.raw@.len(),
        0 <= k < r.raw@.len() ==> r@.raw[k] == r.raw@[k]@,
        r.meta is None ==> r@.meta.len() == 0,
        r.meta matches Some(v) ==> r@.meta.len() == v@.len() && (0 <= k < v@.len() ==> r@.meta[k]
            == v@[k].deep_view()),
        r@.acts == r.acts@,
        r@.spans == r.spans@,
        r@.clock_ns == r.clock.at_ns,
        r@.opened == r.opened,
        r@.dropped == r.dropped,
        r@.ts_ns == r.ts_ns,
        r@.idx == r.idx,
        r@.timed == r.timed,
{
}

/// A session, its frame and its sampler are what they hold.
pub proof fn a_session_is_what_it_holds(s: ReplaySession, f: SessionFrame, p: Sampler, k: int)
    ensures
        s@.times == s.times@,
        s@.cursor == s.cursor,
        s@.last.len() == s.last@.len(),
        0 <= k < s.last@.len() ==> s@.last[k] == s.last@[k].deep_view(),
        f@.tick == f.tick,
        f@.total == f.total,
        f@.ts_ns == f.ts_ns,
        f@.activations.len() == f.activations@.len(),
        0 <= k < f.activations@.len() ==> f@.activations[k] == f.activations@[k].deep_view(),
        p@.ts_ns == p.ts_ns,
        p@.idx == p.idx,
        p@.nodes.len() == p.nodes@.len(),
        0 <= k < p.nodes@.len() ==> p@.nodes[k] == p.nodes@[k].deep_view(),
{
}

/// A board and a dock are what they hold.
pub proof fn a_board_is_what_it_holds(b: Board, d: Dock, l: int, k: int)
    ensures
        spells(b@.gates, b.gates@),
        b@.docks.len() == b.docks@.len(),
        0 <= k < b.docks@.len() ==> b@.docks[k] == b.docks@[k].deep_view(),
        b@.columns.len() == b.columns@.len(),
        0 <= l < b.columns@.len() ==> b@.columns[l].len() == b.columns@[l]@.len() && (0 <= k
            < b.columns@[l]@.len() ==> b@.columns[l][k] == b.columns@[l]@[k]),
        d.deep_view().source == d.source@,
        d.deep_view().buffer == d.buffer@,
        d.deep_view().depth == d.depth@,
{
}

} // verus!
