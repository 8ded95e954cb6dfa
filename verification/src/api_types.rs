//! The shapes the server hands to its clients and the requests it takes from them.
//!
//! Floating-point values are carried by bit pattern, see [`crate::floats`].
use vstd::prelude::*;

use crate::floats::Bits;
use crate::text::{clone_optional, clone_strings};

verus! {

/// How faithfully a node's derivative is known.
#[derive(Debug, PartialEq, Eq)]
pub enum FidelityOut {
    /// Every partial is known.
    Exact,
    /// Some partials are left out, and what they are.
    Partial { omits: String },
    /// No partial is known, and why.
    Opaque { why: String },
}

/// A colour by lightness, chroma and opacity; the hue belongs to the renderer.
#[derive(Clone, Copy, Debug, PartialEq, Eq)]
pub struct InkOut {
    pub l: Bits,
    pub c: Bits,
    pub a: Bits,
}

/// A horizontal guide of a plot.
#[derive(Debug, PartialEq, Eq)]
pub struct GuideOut {
    pub label: String,
    pub value: Bits,
    pub ink: InkOut,
}

/// One plot of a node. `slots` indexes the node's flattened elements (empty = all of them), so a node
/// whose output mixes units draws as several plots, each on its own scale.
#[derive(Debug, PartialEq, Eq)]
pub struct PlotOut {
    pub slots: Vec<usize>,
    pub range: Option<(Bits, Bits)>,
    pub guides: Vec<GuideOut>,
    /// One list of labels per axis.
    pub labels: Vec<Vec<String>>,
    pub inks: Vec<InkOut>,
    pub overlay: bool,
    pub solo: bool,
    pub bars: bool,
    pub candles: bool,
}

/// One node of the static graph, in step (= topological) order. Roots have empty `deps`. `dims` is
/// the node's element shape (`[]` scalar). `gates` are the node's control edges, a subset of `deps`.
#[derive(Debug, PartialEq, Eq)]
pub struct TopoNode {
    pub node: String,
    pub deps: Vec<String>,
    pub gates: Vec<String>,
    pub dims: Vec<usize>,
    pub plots: Vec<PlotOut>,
    /// Estimated nanoseconds this node spends per step; `None` until it has been stepped often enough
    /// for the estimate to be about the node rather than the machine.
    pub cost_ns: Option<Bits>,
    pub fidelity: FidelityOut,
    /// The derivative as the node writes it.
    pub deriv: Option<String>,
}

/// One sample of a node's series. `detail` is the bucket's last fired `Debug`, the node's own composed
/// view of its output; it is empty where that was not recorded.
#[derive(Debug, PartialEq, Eq)]
pub struct PointOut {
    pub ts_ms: i64,
    pub vals: Vec<Bits>,
    pub detail: String,
}

/// One node's output over the whole run, one point per bucket (the last fired value wins).
#[derive(Debug, PartialEq, Eq)]
pub struct SeriesOut {
    pub node: String,
    pub deps: Vec<String>,
    pub gates: Vec<String>,
    pub dims: Vec<usize>,
    pub plots: Vec<PlotOut>,
    pub points: Vec<PointOut>,
    /// The node's own period, where it has one.
    pub clock_ms: Option<i64>,
}

/// The chart payload, snapshotted per request.
#[derive(Debug, PartialEq, Eq)]
pub struct DayOut {
    pub series: Vec<SeriesOut>,
    /// The node whose recorded series is the candle pane, read positionally as o·h·l·c·v. `None` when
    /// the graph has no price node.
    pub price_node: Option<String>,
}

/// The exactly known columns of a Jacobian.
#[derive(Debug, PartialEq, Eq)]
pub struct ExactBlock {
    /// An entry is empty where the engine saw no signal.
    pub cols: Vec<Option<Bits>>,
    pub widths: Vec<usize>,
}

/// One node's standing output as of the current tick: `fired` says whether it was this tick's work,
/// while `out`, `detail` and `vals` carry the last fired ones forward. `out` is the compact rendering a
/// card shows, `detail` the full one it shows when pointed at, empty where that was not recorded. `jac`
/// and `exact_block` are the tick's own and never carried forward; their entries are empty where the
/// engine saw no signal.
#[derive(Debug, PartialEq, Eq)]
pub struct Activation {
    pub node: String,
    pub deps: Vec<String>,
    pub gates: Vec<String>,
    pub out: String,
    pub detail: String,
    /// Whether the sweep advanced the node.
    pub ran: bool,
    pub fired: bool,
    pub dims: Vec<usize>,
    /// A slot is empty where the node left it so; `None` only before the node's first fire.
    pub vals: Option<Vec<Option<Bits>>>,
    pub jac: Option<Vec<Option<Bits>>>,
    pub exact_block: Option<ExactBlock>,
    pub cost_ns: Option<Bits>,
    /// Whether the Jacobian was reached exactly.
    pub exact: bool,
}

/// Replay position and the tick's activations. `tick` counts consumed ticks (0 = nothing replayed
/// yet); `ts_ns` is the last consumed tick's timestamp (0 at the start).
#[derive(Debug, PartialEq, Eq)]
pub struct ActivationFrame {
    pub tick: usize,
    pub total: usize,
    /// The recording is over: `total` will not grow again.
    pub sealed: bool,
    /// Ticks the graph stepped that the tape never got because the handoff was full.
    pub dropped: usize,
    /// This op ran out of recorded ticks; issuing it again later will get further.
    pub pending: bool,
    /// Whether a search reached what it looked for.
    pub found: bool,
    /// How many ticks of the run this position stands for, itself included.
    pub gap: usize,
    pub ts_ns: i64,
    pub activations: Vec<Activation>,
}

/// Step `n` retained ticks on.
#[derive(Clone, Copy, Debug, PartialEq, Eq)]
pub struct StepReq {
    pub n: usize,
}

/// Go to a tick by number.
#[derive(Clone, Copy, Debug, PartialEq, Eq)]
pub struct SeekReq {
    pub tick: usize,
}

/// Go to a tick by time.
#[derive(Clone, Copy, Debug, PartialEq, Eq)]
pub struct SeekTsReq {
    pub ts_ns: i64,
}

/// Advance until a node fires.
#[derive(Debug, PartialEq, Eq)]
pub struct StepUntilReq {
    pub node: String,
}

/// Advance until one of several nodes changes.
#[derive(Debug, PartialEq, Eq)]
pub struct StepUntilChangeReq {
    pub nodes: Vec<String>,
}

/// What a [`FidelityOut`] says.
#[verifier::ext_equal]
pub enum FidelityView {
    Exact,
    Partial { omits: Seq<char> },
    Opaque { why: Seq<char> },
}

/// What a [`GuideOut`] says.
#[verifier::ext_equal]
pub struct GuideView {
    pub label: Seq<char>,
    pub value: Bits,
    pub ink: InkOut,
}

/// What a [`PlotOut`] says.
#[verifier::ext_equal]
pub struct PlotView {
    pub slots: Seq<usize>,
    pub range: Option<(Bits, Bits)>,
    pub guides: Seq<GuideView>,
    pub labels: Seq<Seq<Seq<char>>>,
    pub inks: Seq<InkOut>,
    pub overlay: bool,
    pub solo: bool,
    pub bars: bool,
    pub candles: bool,
}

/// What a [`TopoNode`] says.
#[verifier::ext_equal]
pub struct TopoView {
    pub node: Seq<char>,
    pub deps: Seq<Seq<char>>,
    pub gates: Seq<Seq<char>>,
    pub dims: Seq<usize>,
    pub plots: Seq<PlotView>,
    pub cost_ns: Option<Bits>,
    pub fidelity: FidelityView,
    pub deriv: Option<Seq<char>>,
}

/// What a [`PointOut`] says.
#[verifier::ext_equal]
pub struct PointView {
    pub ts_ms: i64,
    pub vals: Seq<Bits>,
    pub detail: Seq<char>,
}

/// What a [`SeriesOut`] says.
#[verifier::ext_equal]
pub struct SeriesView {
    pub node: Seq<char>,
    pub deps: Seq<Seq<char>>,
    pub gates: Seq<Seq<char>>,
    pub dims: Seq<usize>,
    pub plots: Seq<PlotView>,
    pub points: Seq<PointView>,
    pub clock_ms: Option<i64>,
}

/// What a [`DayOut`] says.
#[verifier::ext_equal]
pub struct DayView {
    pub series: Seq<SeriesView>,
    pub price_node: Option<Seq<char>>,
}

/// What an [`ExactBlock`] says.
#[verifier::ext_equal]
pub struct BlockView {
    pub cols: Seq<Option<Bits>>,
    pub widths: Seq<usize>,
}

/// What an [`Activation`] says.
#[verifier::ext_equal]
pub struct ActivationView {
    pub node: Seq<char>,
    pub deps: Seq<Seq<char>>,
    pub gates: Seq<Seq<char>>,
    pub out: Seq<char>,
    pub detail: Seq<char>,
    pub ran: bool,
    pub fired: bool,
    pub dims: Seq<usize>,
    pub vals: Option<Seq<Option<Bits>>>,
    pub jac: Option<Seq<Option<Bits>>>,
    pub exact_block: Option<BlockView>,
    pub cost_ns: Option<Bits>,
    pub exact: bool,
}

/// What an [`ActivationFrame`] says.
#[verifier::ext_equal]
pub struct FrameView {
    pub tick: nat,
    pub total: nat,
    pub sealed: bool,
    pub dropped: nat,
    pub pending: bool,
    pub found: bool,
    pub gap: nat,
    pub ts_ns: i64,
    pub activations: Seq<ActivationView>,
}

impl DeepView for InkOut {
    type V = InkOut;

    open spec fn deep_view(&self) -> InkOut {
        *self
    }
}

impl DeepView for FidelityOut {
    type V = FidelityView;

    open spec fn deep_view(&self) -> FidelityView {
        match *self {
            FidelityOut::Exact => FidelityView::Exact,
            FidelityOut::Partial { omits } => FidelityView::Partial { omits: omits@ },
            FidelityOut::Opaque { why } => FidelityView::Opaque { why: why@ },
        }
    }
}

impl DeepView for GuideOut {
    type V = GuideView;

    open spec fn deep_view(&self) -> GuideView {
        GuideView { label: self.label@, value: self.value, ink: self.ink }
    }
}

impl DeepView for PlotOut {
    type V = PlotView;

    open spec fn deep_view(&self) -> PlotView {
        PlotView {
            slots: self.slots.deep_view(),
            range: self.range.deep_view(),
            guides: self.guides.deep_view(),
            labels: self.labels.deep_view(),
            inks: self.inks.deep_view(),
            overlay: self.overlay,
            solo: self.solo,
            bars: self.bars,
            candles: self.candles,
        }
    }
}

impl DeepView for TopoNode {
    type V = TopoView;

    open spec fn deep_view(&self) -> TopoView {
        TopoView {
            node: self.node@,
            deps: self.deps.deep_view(),
            gates: self.gates.deep_view(),
            dims: self.dims.deep_view(),
            plots: self.plots.deep_view(),
            cost_ns: self.cost_ns,
            fidelity: self.fidelity.deep_view(),
            deriv: self.deriv.deep_view(),
        }
    }
}

impl DeepView for PointOut {
    type V = PointView;

    open spec fn deep_view(&self) -> PointView {
        PointView { ts_ms: self.ts_ms, vals: self.vals.deep_view(), detail: self.detail@ }
    }
}

impl DeepView for SeriesOut {
    type V = SeriesView;

    open spec fn deep_view(&self) -> SeriesView {
        SeriesView {
            node: self.node@,
            deps: self.deps.deep_view(),
            gates: self.gates.deep_view(),
            dims: self.dims.deep_view(),
            plots: self.plots.deep_view(),
            points: self.points.deep_view(),
            clock_ms: self.clock_ms,
        }
    }
}

impl DeepView for DayOut {
    type V = DayView;

    open spec fn deep_view(&self) -> DayView {
        DayView { series: self.series.deep_view(), price_node: self.price_node.deep_view() }
    }
}

impl DeepView for ExactBlock {
    type V = BlockView;

    open spec fn deep_view(&self) -> BlockView {
        BlockView { cols: self.cols@, widths: self.widths@ }
    }
}

/// The contents of an optional list.
pub open spec fn listed<T>(v: Option<Vec<T>>) -> Option<Seq<T>> {
    match v {
        Some(x) => Some(x@),
        None => None,
    }
}

impl DeepView for Activation {
    type V = ActivationView;

    open spec fn deep_view(&self) -> ActivationView {
        ActivationView {
            node: self.node@,
            deps: self.deps.deep_view(),
            gates: self.gates.deep_view(),
            out: self.out@,
            detail: self.detail@,
            ran: self.ran,
            fired: self.fired,
            dims: self.dims.deep_view(),
            vals: listed(self.vals),
            jac: listed(self.jac),
            exact_block: self.exact_block.deep_view(),
            cost_ns: self.cost_ns,
            exact: self.exact,
        }
    }
}

impl DeepView for ActivationFrame {
    type V = FrameView;

    open spec fn deep_view(&self) -> FrameView {
        FrameView {
            tick: self.tick as nat,
            total: self.total as nat,
            sealed: self.sealed,
            dropped: self.dropped as nat,
            pending: self.pending,
            found: self.found,
            gap: self.gap as nat,
            ts_ns: self.ts_ns,
            activations: self.activations.deep_view(),
        }
    }
}

impl Clone for FidelityOut {
    fn clone(&self) -> (r: Self)
        ensures
            r.deep_view() == self.deep_view(),
    {
        match self {
            FidelityOut::Exact => FidelityOut::Exact,
            FidelityOut::Partial { omits } => FidelityOut::Partial { omits: omits.clone() },
            FidelityOut::Opaque { why } => FidelityOut::Opaque { why: why.clone() },
        }
    }
}

impl Clone for GuideOut {
    fn clone(&self) -> (r: Self)
        ensures
            r.deep_view() == self.deep_view(),
    {
        GuideOut { label: self.label.clone(), value: self.value, ink: self.ink }
    }
}

impl Clone for PlotOut {
    fn clone(&self) -> (r: Self)
        ensures
            r.deep_view() == self.deep_view(),
    {
        let r = PlotOut {
            slots: self.slots.clone(),
            range: self.range,
            guides: self.guides.clone(),
            labels: self.labels.clone(),
            inks: self.inks.clone(),
            overlay: self.overlay,
            solo: self.solo,
            bars: self.bars,
            candles: self.candles,
        };
        proof {
            assert(r.slots.deep_view() =~= self.slots.deep_view());
            assert(r.guides.deep_view() =~= self.guides.deep_view());
            assert(r.labels.deep_view() =~~= self.labels.deep_view());
            assert(r.inks.deep_view() =~= self.inks.deep_view());
        }
        r
    }
}

impl Clone for TopoNode {
    fn clone(&self) -> (r: Self)
        ensures
            r.deep_view() == self.deep_view(),
    {
        let r = TopoNode {
            node: self.node.clone(),
            deps: clone_strings(&self.deps),
            gates: clone_strings(&self.gates),
            dims: self.dims.clone(),
            plots: self.plots.clone(),
            cost_ns: self.cost_ns,
            fidelity: self.fidelity.clone(),
            deriv: clone_optional(&self.deriv),
        };
        proof {
            assert(r.dims.deep_view() =~= self.dims.deep_view());
            assert(r.plots.deep_view() =~= self.plots.deep_view());
        }
        r
    }
}

impl Clone for PointOut {
    fn clone(&self) -> (r: Self)
        ensures
            r.deep_view() == self.deep_view(),
    {
        let r = PointOut { ts_ms: self.ts_ms, vals: self.vals.clone(), detail: self.detail.clone() };
        assert(r.vals.deep_view() =~= self.vals.deep_view());
        r
    }
}

impl Clone for SeriesOut {
    fn clone(&self) -> (r: Self)
        ensures
            r.deep_view() == self.deep_view(),
    {
        let r = SeriesOut {
            node: self.node.clone(),
            deps: clone_strings(&self.deps),
            gates: clone_strings(&self.gates),
            dims: self.dims.clone(),
            plots: self.plots.clone(),
            points: self.points.clone(),
            clock_ms: self.clock_ms,
        };
        proof {
            assert(r.dims.deep_view() =~= self.dims.deep_view());
            assert(r.plots.deep_view() =~= self.plots.deep_view());
            assert(r.points.deep_view() =~= self.points.deep_view());
        }
        r
    }
}

impl Clone for ExactBlock {
    fn clone(&self) -> (r: Self)
        ensures
            r.deep_view() == self.deep_view(),
    {
        let r = ExactBlock { cols: self.cols.clone(), widths: self.widths.clone() };
        proof {
            assert(r.cols@ =~= self.cols@);
            assert(r.widths@ =~= self.widths@);
        }
        r
    }
}

impl Clone for Activation {
    fn clone(&self) -> (r: Self)
        ensures
            r.deep_view() == self.deep_view(),
    {
        let r = Activation {
            node: self.node.clone(),
            deps: clone_strings(&self.deps),
            gates: clone_strings(&self.gates),
            out: self.out.clone(),
            detail: self.detail.clone(),
            ran: self.ran,
            fired: self.fired,
            dims: self.dims.clone(),
            vals: clone_slots(&self.vals),
            jac: clone_slots(&self.jac),
            exact_block: match &self.exact_block {
                Some(b) => Some(b.clone()),
                None => None,
            },
            cost_ns: self.cost_ns,
            exact: self.exact,
        };
        assert(r.dims.deep_view() =~= self.dims.deep_view());
        r
    }
}

/// A copy of optional slots.
fn clone_slots(v: &Option<Vec<Option<Bits>>>) -> (r: Option<Vec<Option<Bits>>>)
    ensures
        listed(r) == listed(*v),
{
    match v {
        Some(x) => {
            let y = x.clone();
            assert(y@ =~= x@);
            Some(y)
        },
        None => None,
    }
}

impl Clone for ActivationFrame {
    fn clone(&self) -> (r: Self)
        ensures
            r.deep_view() == self.deep_view(),
    {
        let r = ActivationFrame {
            tick: self.tick,
            total: self.total,
            sealed: self.sealed,
            dropped: self.dropped,
            pending: self.pending,
            found: self.found,
            gap: self.gap,
            ts_ns: self.ts_ns,
            activations: self.activations.clone(),
        };
        assert(r.activations.deep_view() =~= self.activations.deep_view());
        r
    }
}

} // verus!
