//! Replay by running again: a stream of events, a graph and a cursor.
//!
//! Nothing is kept but the last tick: determinism is the storage. Forward is ticking; backward is a
//! fresh graph run again from the start. What is decided here is which events are ticked and how; the
//! graph is ticked by whoever owns it.
use vstd::prelude::*;

use crate::acts::{copied, Report};
use crate::api_types::{
    Activation, ActivationView, PlotOut, PointOut, PointView, SeriesOut, SeriesView, TopoNode,
    TopoView,
};
use crate::floats::{number_slots, only_numbers, Bits};
use crate::model::{bucket, millis};
use crate::replay::least;
use crate::text::{chars, contains, same, string_of};

verus! {

/// How many angle brackets are open after the first `k` characters.
pub open spec fn depth(s: Seq<char>, k: nat) -> int
    decreases k,
{
    if k == 0 {
        0
    } else {
        let d = depth(s, (k - 1) as nat);
        if s[k - 1] == '<' {
            d + 1
        } else if s[k - 1] == '>' {
            d - 1
        } else {
            d
        }
    }
}

/// A path separator outside all brackets starts at `i`.
pub open spec fn separates(s: Seq<char>, i: nat) -> bool {
    i + 1 < s.len() && s[i as int] == ':' && s[i as int + 1] == ':' && depth(s, i) == 0
}

/// Where the last segment starts, looking at separators that start before `n`.
pub open spec fn cut(s: Seq<char>, n: nat) -> nat
    decreases n,
{
    if n == 0 {
        0
    } else if separates(s, (n - 1) as nat) {
        n + 1
    } else {
        cut(s, (n - 1) as nat)
    }
}

/// No bracket closes that was not opened.
pub open spec fn balanced(s: Seq<char>) -> bool {
    forall|k: nat| #![trigger depth(s, k)] k <= s.len() ==> depth(s, k) >= 0
}

/// The last path segment: what stands inside brackets is left as it is.
pub open spec fn last_segment(s: Seq<char>) -> Seq<char> {
    s.skip(cut(s, s.len()) as int)
}

proof fn lemma_cut(s: Seq<char>, n: nat)
    requires
        n <= s.len(),
    ensures
        cut(s, n) <= s.len(),
        cut(s, n) <= n + 1,
        cut(s, n) > 0 ==> cut(s, n) >= 2 && separates(s, (cut(s, n) - 2) as nat),
        forall|i: nat| #![trigger separates(s, i)] i < n && separates(s, i) ==> i + 2 <= cut(s, n),
    decreases n,
{
    if n > 0 {
        lemma_cut(s, (n - 1) as nat);
    }
}

/// The last segment holds no separator outside all brackets, and begins after one unless it is the
/// whole name.
pub proof fn the_last_segment_is_the_last(s: Seq<char>, i: nat)
    requires
        cut(s, s.len()) <= i,
    ensures
        !separates(s, i),
        cut(s, s.len()) > 0 ==> separates(s, (cut(s, s.len()) - 2) as nat),
{
    lemma_cut(s, s.len());
}

/// Whether no bracket closes that was not opened.
pub fn is_balanced(name: &str) -> (r: bool)
    ensures
        r == balanced(name@),
{
    let cs: Vec<char> = chars(name);
    let mut d: usize = 0;
    let mut i: usize = 0;
    while i < cs.len()
        invariant
            cs@ == name@,
            i <= cs@.len(),
            d <= i,
            d == depth(name@, i as nat),
            forall|k: nat| #![trigger depth(name@, k)] k <= i ==> depth(name@, k) >= 0,
        decreases cs@.len() - i,
    {
        if cs[i] == '<' {
            d = d + 1;
        } else if cs[i] == '>' {
            if d == 0 {
                assert(depth(name@, (i + 1) as nat) < 0);
                return false;
            }
            d = d - 1;
        }
        i += 1;
    }
    true
}

/// The last path segment of a name: `nodes::Rsi<14>` reads `Rsi<14>`.
pub fn trim(name: &str) -> (r: String)
    requires
        balanced(name@),
    ensures
        r@ == last_segment(name@),
{
    let cs: Vec<char> = chars(name);
    let n: usize = cs.len();
    let mut d: usize = 0;
    let mut start: usize = 0;
    let mut i: usize = 0;
    while i < n
        invariant
            cs@ == name@,
            n == cs@.len(),
            balanced(name@),
            i <= n,
            d <= i,
            d == depth(name@, i as nat),
            start == cut(name@, i as nat),
            start <= n,
        decreases n - i,
    {
        assert(depth(name@, (i + 1) as nat) >= 0);
        if cs[i] == '<' {
            d = d + 1;
        } else if cs[i] == '>' {
            d = d - 1;
        } else if cs[i] == ':' && d == 0 && n - i >= 2 && cs[i + 1] == ':' {
            start = i + 2;
        }
        i += 1;
    }
    string_of(cs.as_slice(), start, n)
}

/// Every name is balanced.
pub open spec fn all_balanced(names: Seq<Seq<char>>) -> bool {
    forall|k: int| #![trigger names[k]] 0 <= k < names.len() ==> balanced(names[k])
}

/// The last segment of each name.
pub open spec fn last_segments(names: Seq<Seq<char>>) -> Seq<Seq<char>> {
    Seq::new(names.len(), |k: int| last_segment(names[k]))
}

/// The last segment of each name.
fn trim_all(names: &[&'static str]) -> (r: Vec<String>)
    requires
        all_balanced(names.deep_view()),
    ensures
        r.deep_view() == last_segments(names.deep_view()),
{
    let ghost nv = names.deep_view();
    let mut out: Vec<String> = Vec::new();
    let mut k: usize = 0;
    while k < names.len()
        invariant
            nv == names.deep_view(),
            all_balanced(nv),
            k <= names@.len(),
            out@.len() == k,
            forall|j: int| #![trigger out@[j]] 0 <= j < k ==> out@[j]@ == last_segment(nv[j]),
        decreases names@.len() - k,
    {
        assert(nv[k as int] == names@[k as int]@);
        out.push(trim(names[k]));
        k += 1;
    }
    assert(out.deep_view() =~= last_segments(nv));
    out
}

/// Every slot of `xs`, none empty.
pub open spec fn full_slots(xs: Seq<Bits>) -> Seq<Option<Bits>> {
    Seq::new(xs.len(), |k: int| Some(xs[k]))
}

/// A node's report as an activation of the tick, with the full rendering of its output.
pub open spec fn collected(
    node: Seq<char>,
    deps: Seq<Seq<char>>,
    gates: Seq<Seq<char>>,
    dims: Seq<usize>,
    f: Report<'_>,
    detail: Seq<char>,
) -> ActivationView {
    ActivationView {
        node: last_segment(node),
        deps: last_segments(deps),
        gates: last_segments(gates),
        out: f.glance@,
        detail,
        ran: f.ran,
        fired: f.vals is Some,
        dims,
        vals: match f.vals {
            Some(v) => Some(full_slots(v@)),
            None => None,
        },
        jac: match f.jac {
            Some(j) => Some(number_slots(j@)),
            None => None,
        },
        exact_block: None,
        cost_ns: None,
        exact: f.exact,
    }
}

/// A node's report as an activation of the tick, with the full rendering of its output.
pub fn collect(
    node: &'static str,
    deps: &[&'static str],
    gates: &[&'static str],
    dims: &[usize],
    f: &Report<'_>,
    detail: &str,
) -> (r: Activation)
    requires
        balanced(node@),
        all_balanced(deps.deep_view()),
        all_balanced(gates.deep_view()),
    ensures
        r.deep_view() == collected(node@, deps.deep_view(), gates.deep_view(), dims@, *f, detail@),
{
    let vals: Option<Vec<Option<Bits>>> = match f.vals {
        Some(v) => {
            let mut out: Vec<Option<Bits>> = Vec::new();
            let mut k: usize = 0;
            while k < v.len()
                invariant
                    k <= v@.len(),
                    out@ == full_slots(v@).take(k as int),
                decreases v@.len() - k,
            {
                out.push(Some(v[k]));
                assert(full_slots(v@).take(k as int).push(Some(v@[k as int])) =~= full_slots(
                    v@,
                ).take(k + 1));
                k += 1;
            }
            assert(full_slots(v@).take(k as int) =~= full_slots(v@));
            Some(out)
        },
        None => None,
    };
    let jac: Option<Vec<Option<Bits>>> = match f.jac {
        Some(j) => Some(only_numbers(j)),
        None => None,
    };
    let fired: bool = match f.vals {
        Some(_) => true,
        None => false,
    };
    let copy: Vec<usize> = copied(dims);
    assert(copy.deep_view() =~= dims@);
    Activation {
        node: trim(node),
        deps: trim_all(deps),
        gates: trim_all(gates),
        out: f.glance.to_owned(),
        detail: detail.to_owned(),
        ran: f.ran,
        fired,
        dims: copy,
        vals,
        jac,
        exact_block: None,
        cost_ns: None,
        exact: f.exact,
    }
}

/// The graph one observed tick shows, each node with its plots.
pub open spec fn shape_of(acts: Seq<ActivationView>, plots: Seq<Seq<crate::api_types::PlotView>>) -> Seq<
    TopoView,
> {
    Seq::new(
        least(acts.len(), plots.len()),
        |i: int|
            TopoView {
                node: acts[i].node,
                deps: acts[i].deps,
                gates: acts[i].gates,
                dims: acts[i].dims,
                plots: plots[i],
                cost_ns: None,
                fidelity: crate::api_types::FidelityView::Exact,
                deriv: None,
            },
    )
}

/// The graph one observed tick shows: step order is topological order.
pub fn topology(acts: &[Activation], plots: &[Vec<PlotOut>]) -> (r: Vec<TopoNode>)
    ensures
        r.deep_view() == shape_of(acts.deep_view(), plots.deep_view()),
{
    let ghost want = shape_of(acts.deep_view(), plots.deep_view());
    let mut out: Vec<TopoNode> = Vec::new();
    let mut i: usize = 0;
    while i < acts.len() && i < plots.len()
        invariant
            want == shape_of(acts.deep_view(), plots.deep_view()),
            i <= acts@.len(),
            i <= plots@.len(),
            out@.len() == i,
            forall|j: int| #![trigger out@[j]] 0 <= j < i ==> out@[j].deep_view() == want[j],
        decreases acts@.len() - i,
    {
        let a: &Activation = &acts[i];
        let dims: Vec<usize> = copied(a.dims.as_slice());
        let p: Vec<PlotOut> = plots[i].clone();
        proof {
            assert(acts.deep_view()[i as int] == a.deep_view());
            assert(plots.deep_view()[i as int] == plots@[i as int].deep_view());
            assert(dims.deep_view() =~= a.dims.deep_view());
            assert(p.deep_view() =~= plots@[i as int].deep_view());
        }
        let n = TopoNode {
            node: a.node.clone(),
            deps: crate::text::clone_strings(&a.deps),
            gates: crate::text::clone_strings(&a.gates),
            dims,
            plots: p,
            cost_ns: None,
            fidelity: crate::api_types::FidelityOut::Exact,
            deriv: None,
        };
        assert(n.deep_view() =~= want[i as int]);
        out.push(n);
        i += 1;
    }
    assert(out.deep_view() =~= want);
    out
}

/// The chart's sample period over a whole day, in milliseconds.
pub const MINUTE_MS: i64 = 60_000;

/// Where the point of minute `b` stands among the first `n`, the newest of them where several are.
pub open spec fn minute_at(points: Seq<PointView>, b: int, n: nat) -> Option<nat>
    decreases n,
{
    if n == 0 {
        None
    } else if points[n - 1].ts_ms == b {
        Some((n - 1) as nat)
    } else {
        minute_at(points, b, (n - 1) as nat)
    }
}

/// What a node fired with: the values, and the full rendering of them.
#[verifier::ext_equal]
pub struct FiredView {
    pub vals: Seq<Bits>,
    pub detail: Seq<char>,
}

/// The point of minute `b` that holds `f`.
pub open spec fn point_of(b: i64, f: FiredView) -> PointView {
    PointView { ts_ms: b, vals: f.vals, detail: f.detail }
}

/// The points once `f` came in for minute `b`: its point takes it wherever it stands, and is begun
/// where there is none.
pub open spec fn sampled(points: Seq<PointView>, b: int, f: FiredView) -> Seq<PointView> {
    match minute_at(points, b, points.len()) {
        Some(k) => points.update(k as int, point_of(b as i64, f)),
        None => points.push(point_of(b as i64, f)),
    }
}

/// Samples every node's output over a day, the last fired values of each minute. A feed's timestamps
/// do go backwards: a minute that is come back to is the same minute.
pub struct Sampler {
    pub ts_ns: i64,
    /// Per-tick step counter: step order is identical every tick, so it doubles as node id.
    pub idx: usize,
    pub nodes: Vec<SeriesOut>,
}

/// What a [`Sampler`] holds.
#[verifier::ext_equal]
pub struct SamplerView {
    pub ts_ns: i64,
    pub idx: nat,
    pub nodes: Seq<SeriesView>,
}

impl View for Sampler {
    type V = SamplerView;

    open spec fn view(&self) -> SamplerView {
        SamplerView {
            ts_ns: self.ts_ns,
            idx: self.idx as nat,
            nodes: self.nodes.deep_view(),
        }
    }
}

impl SamplerView {
    /// The samples with room for the next node, begun where it is new.
    pub open spec fn met(self, fresh: SeriesView) -> Seq<SeriesView> {
        if self.nodes.len() <= self.idx {
            self.nodes.push(fresh)
        } else {
            self.nodes
        }
    }

    /// The next node reported: its minute takes what it fired with where it did.
    pub open spec fn reported(self, fresh: SeriesView, fire: Option<FiredView>) -> SamplerView {
        let nodes = self.met(fresh);
        SamplerView {
            idx: self.idx + 1,
            nodes: match fire {
                Some(f) => nodes.update(
                    self.idx as int,
                    SeriesView {
                        points: sampled(
                            nodes[self.idx as int].points,
                            bucket(self.ts_ns, MINUTE_MS),
                            f,
                        ),
                        ..nodes[self.idx as int]
                    },
                ),
                None => nodes,
            },
            ..self
        }
    }
}

impl Sampler {
    /// The step counter is no further than the nodes met.
    pub open spec fn wf(self) -> bool {
        self.idx <= self.nodes@.len()
    }

    /// No samples yet.
    pub fn new() -> (r: Sampler)
        ensures
            r.wf(),
            r@ == (SamplerView { ts_ns: 0, idx: 0, nodes: Seq::empty() }),
    {
        let r = Sampler { ts_ns: 0, idx: 0, nodes: Vec::new() };
        assert(r@ =~= SamplerView { ts_ns: 0, idx: 0, nodes: Seq::empty() });
        r
    }

    /// Opens a tick.
    pub fn open(&mut self, ts_ns: i64)
        ensures
            final(self).wf(),
            final(self)@ == (SamplerView { ts_ns, idx: 0, ..old(self)@ }),
    {
        self.ts_ns = ts_ns;
        self.idx = 0;
    }

    /// Takes in the next node's report, with the full rendering of its output.
    pub fn on(
        &mut self,
        node: &'static str,
        deps: &[&'static str],
        dims: &[usize],
        plots: &Vec<PlotOut>,
        vals: Option<&[Bits]>,
        detail: &str,
    )
        requires
            old(self).wf(),
            balanced(node@),
            all_balanced(deps.deep_view()),
            old(self).idx < usize::MAX,
        ensures
            final(self).wf(),
            final(self)@ == old(self)@.reported(
                (SeriesView {
                    node: last_segment(node@),
                    deps: last_segments(deps.deep_view()),
                    gates: Seq::empty(),
                    dims: dims@,
                    plots: plots.deep_view(),
                    points: Seq::empty(),
                    clock_ms: None,
                }),
                match vals {
                    Some(v) => Some((FiredView { vals: v@, detail: detail@ })),
                    None => None,
                },
            ),
    {
        let ghost was = self@;
        let ghost fresh = SeriesView {
            node: last_segment(node@),
            deps: last_segments(deps.deep_view()),
            gates: Seq::empty(),
            dims: dims@,
            plots: plots.deep_view(),
            points: Seq::empty(),
            clock_ms: None,
        };
        if self.nodes.len() <= self.idx {
            let copy: Vec<usize> = copied(dims);
            let p: Vec<PlotOut> = plots.clone();
            let s = SeriesOut {
                node: trim(node),
                deps: trim_all(deps),
                gates: Vec::new(),
                dims: copy,
                plots: p,
                points: Vec::new(),
                clock_ms: None,
            };
            proof {
                assert(s.dims.deep_view() =~= dims@);
                assert(s.plots.deep_view() =~= plots.deep_view());
                assert(s.gates.deep_view() =~= Seq::empty());
                assert(s.points.deep_view() =~= Seq::empty());
                assert(s.deep_view() =~= fresh);
            }
            self.nodes.push(s);
            assert(self.nodes.deep_view() =~= was.nodes.push(fresh));
        }
        let ghost met = self.nodes.deep_view();
        assert(met == was.met(fresh));
        let i: usize = self.idx;
        self.idx = self.idx + 1;
        match vals {
            Some(v) => {
                let b: i64 = minute_of(self.ts_ns);
                let ghost f = FiredView { vals: v@, detail: detail@ };
                sample(&mut self.nodes[i], b, v, detail);
                assert(self.nodes.deep_view() =~= met.update(
                    i as int,
                    SeriesView { points: sampled(met[i as int].points, b as int, f), ..met[i as int] },
                ));
            },
            None => {},
        }
        assert(self@ =~= was.reported(
            fresh,
            match vals {
                Some(v) => Some((FiredView { vals: v@, detail: detail@ })),
                None => None,
            },
        ));
    }
}

/// The start of the minute `ts_ns` falls in.
fn minute_of(ts_ns: i64) -> (r: i64)
    ensures
        r == bucket(ts_ns, MINUTE_MS),
{
    let ms: i64 = ts_ns / 1_000_000;
    proof {
        crate::keeping::lemma_bucket(ts_ns, MINUTE_MS);
        assert(ms == millis(ts_ns));
    }
    match ms.checked_rem_euclid(MINUTE_MS) {
        Some(into) => {
            assert(into == ms as int % MINUTE_MS as int);
            ms - into
        },
        None => ms,
    }
}

/// Puts `vals` and their full rendering on a series for the minute `b`.
fn sample(s: &mut SeriesOut, b: i64, vals: &[Bits], detail: &str)
    ensures
        final(s).deep_view() == (SeriesView {
            points: sampled(
                old(s).deep_view().points,
                b as int,
                (FiredView { vals: vals@, detail: detail@ }),
            ),
            ..old(s).deep_view()
        }),
{
    let ghost was = s.points.deep_view();
    let n: usize = s.points.len();
    let copy: Vec<Bits> = copied(vals);
    assert(copy.deep_view() =~= vals@);
    let mut k: usize = n;
    while k > 0 && s.points[k - 1].ts_ms != b
        invariant
            k <= n == s.points@.len(),
            was == s.points.deep_view(),
            minute_at(was, b as int, n as nat) == minute_at(was, b as int, k as nat),
        decreases k,
    {
        assert(was[k - 1].ts_ms == s.points@[k - 1].ts_ms);
        k -= 1;
    }
    if k > 0 {
        assert(was[k - 1].ts_ms == s.points@[k - 1].ts_ms);
        s.points.set(k - 1, PointOut { ts_ms: b, vals: copy, detail: detail.to_owned() });
    } else {
        s.points.push(PointOut { ts_ms: b, vals: copy, detail: detail.to_owned() });
    }
    assert(s.points.deep_view() =~= sampled(
        was,
        b as int,
        FiredView { vals: vals@, detail: detail@ },
    ));
}

proof fn lemma_minute_at(points: Seq<PointView>, b: int, n: nat)
    requires
        n <= points.len(),
    ensures
        match minute_at(points, b, n) {
            Some(k) => k < n && points[k as int].ts_ms == b,
            None => forall|k: int| #![trigger points[k]] 0 <= k < n ==> points[k].ts_ms != b,
        },
    decreases n,
{
    if n > 0 {
        lemma_minute_at(points, b, (n - 1) as nat);
    }
}

/// No two points are of the same minute.
pub open spec fn one_per_minute(points: Seq<PointView>) -> bool {
    forall|x: int, y: int|
        #![trigger points[x], points[y]]
        0 <= x < y < points.len() ==> points[x].ts_ms != points[y].ts_ms
}

/// A minute holds its last sample: right after a node fired there is a point of this minute that holds
/// what it fired with, every other point is as it was, and sampling it again changes nothing.
pub proof fn a_minute_holds_its_last_sample(points: Seq<PointView>, b: i64, f: FiredView)
    ensures
        sampled(points, b as int, f).contains(point_of(b, f)),
        points.len() <= sampled(points, b as int, f).len() <= points.len() + 1,
        forall|k: int|
            #![trigger points[k]]
            0 <= k < points.len() && points[k].ts_ms != b ==> sampled(points, b as int, f)[k]
                == points[k],
        one_per_minute(points) ==> one_per_minute(sampled(points, b as int, f)),
        sampled(sampled(points, b as int, f), b as int, f) == sampled(points, b as int, f),
{
    let s = sampled(points, b as int, f);
    lemma_minute_at(points, b as int, points.len());
    lemma_minute_at(s, b as int, s.len());
    let at = match minute_at(points, b as int, points.len()) {
        Some(k) => k as int,
        None => points.len() as int,
    };
    assert(s[at] == point_of(b, f));
    if one_per_minute(points) {
        assert forall|x: int, y: int|
            #![trigger s[x], s[y]]
            0 <= x < y < s.len() implies s[x].ts_ms != s[y].ts_ms by {
            if y < points.len() {
                assert(points[x].ts_ms != points[y].ts_ms);
            } else {
                assert(points[x].ts_ms != b);
            }
        }
    }
    lemma_minute_newest(points, b as int, f);
    assert(sampled(s, b as int, f) =~= s);
}

/// The point of a minute is still its newest once it was sampled.
proof fn lemma_minute_newest(points: Seq<PointView>, b: int, f: FiredView)
    requires
        i64::MIN <= b <= i64::MAX,
    ensures
        ({
            let s = sampled(points, b, f);
            minute_at(s, b, s.len()) == match minute_at(points, b, points.len()) {
                Some(k) => Some(k),
                None => Some(points.len()),
            }
        }),
{
    let s = sampled(points, b, f);
    lemma_minute_at(points, b, points.len());
    match minute_at(points, b, points.len()) {
        Some(k) => {
            lemma_same_stamps(points, s, b, points.len());
        },
        None => {},
    }
}

proof fn lemma_same_stamps(p: Seq<PointView>, q: Seq<PointView>, b: int, n: nat)
    requires
        n <= p.len(),
        n <= q.len(),
        forall|k: int| #![trigger p[k]] 0 <= k < n ==> p[k].ts_ms == q[k].ts_ms,
    ensures
        minute_at(p, b, n) == minute_at(q, b, n),
    decreases n,
{
    if n > 0 {
        assert(p[n - 1].ts_ms == q[n - 1].ts_ms);
        lemma_same_stamps(p, q, b, (n - 1) as nat);
    }
}

/// One fire of a node: the minute it fell in, and what it fired with.
#[verifier::ext_equal]
pub struct Sampled {
    pub minute: i64,
    pub fire: FiredView,
}

/// What a point holds.
pub open spec fn held_in(p: PointView) -> FiredView {
    FiredView { vals: p.vals, detail: p.detail }
}

/// The points of a node that fired `fires`, in order.
pub open spec fn sampled_all(fires: Seq<Sampled>) -> Seq<PointView>
    decreases fires.len(),
{
    if fires.len() == 0 {
        Seq::empty()
    } else {
        sampled(
            sampled_all(fires.drop_last()),
            fires.last().minute as int,
            fires.last().fire,
        )
    }
}

/// What the node last fired with in minute `b`, if it did.
pub open spec fn last_of(fires: Seq<Sampled>, b: i64) -> Option<FiredView>
    decreases fires.len(),
{
    if fires.len() == 0 {
        None
    } else if fires.last().minute == b {
        Some(fires.last().fire)
    } else {
        last_of(fires.drop_last(), b)
    }
}

/// Some point is of minute `b`.
pub open spec fn has_minute(points: Seq<PointView>, b: i64) -> bool {
    exists|k: int| #![trigger points[k]] 0 <= k < points.len() && points[k].ts_ms == b
}

/// Over a whole day, in whatever order its minutes come, no two points of a series are of the same
/// minute, each holds the last fire of its minute, and every minute with a fire has one.
pub proof fn every_minute_holds_its_last_fire(fires: Seq<Sampled>)
    ensures
        one_per_minute(sampled_all(fires)),
        forall|k: int|
            #![trigger sampled_all(fires)[k]]
            0 <= k < sampled_all(fires).len() ==> last_of(fires, sampled_all(fires)[k].ts_ms)
                == Some(held_in(sampled_all(fires)[k])),
        forall|b: i64|
            #![trigger last_of(fires, b)]
            last_of(fires, b) is Some ==> has_minute(sampled_all(fires), b),
    decreases fires.len(),
{
    if fires.len() > 0 {
        let d = fires.drop_last();
        let f = fires.last();
        let was = sampled_all(d);
        let now = sampled_all(fires);
        every_minute_holds_its_last_fire(d);
        a_minute_holds_its_last_sample(was, f.minute, f.fire);
        lemma_minute_at(was, f.minute as int, was.len());
        assert forall|k: int| #![trigger now[k]] 0 <= k < now.len() implies last_of(
            fires,
            now[k].ts_ms,
        ) == Some(held_in(now[k])) by {
            if now[k].ts_ms == f.minute {
                let at = choose|at: int|
                    0 <= at < now.len() && now[at] == point_of(f.minute, f.fire);
                if at != k {
                    if at < k {
                        assert(now[at].ts_ms != now[k].ts_ms);
                    } else {
                        assert(now[k].ts_ms != now[at].ts_ms);
                    }
                }
            } else {
                assert(k < was.len());
                assert(was[k].ts_ms != f.minute || now[k].ts_ms == f.minute);
                assert(now[k] == was[k]);
            }
        }
        assert forall|b: i64| #![trigger last_of(fires, b)] last_of(
            fires,
            b,
        ) is Some implies has_minute(now, b) by {
            if b == f.minute {
                let at = choose|at: int|
                    0 <= at < now.len() && now[at] == point_of(f.minute, f.fire);
                assert(now[at].ts_ms == b);
            } else {
                assert(last_of(d, b) is Some);
                let k = choose|k: int|
                    #![trigger was[k]]
                    0 <= k < was.len() && was[k].ts_ms == b;
                assert(now[k] == was[k]);
            }
        }
    }
}

/// Reporting keeps one point per minute on every series of a day.
pub proof fn reporting_keeps_one_point_per_minute(
    s: SamplerView,
    fresh: SeriesView,
    fire: Option<FiredView>,
)
    requires
        s.idx <= s.nodes.len(),
        fresh.points.len() == 0,
        forall|i: int|
            #![trigger s.nodes[i]]
            0 <= i < s.nodes.len() ==> one_per_minute(s.nodes[i].points),
    ensures
        forall|i: int|
            #![trigger s.reported(fresh, fire).nodes[i]]
            0 <= i < s.reported(fresh, fire).nodes.len() ==> one_per_minute(
                s.reported(fresh, fire).nodes[i].points,
            ),
{
    let met = s.met(fresh);
    let r = s.reported(fresh, fire);
    crate::keeping::lemma_bucket(s.ts_ns, MINUTE_MS);
    assert forall|i: int| #![trigger r.nodes[i]] 0 <= i < r.nodes.len() implies one_per_minute(
        r.nodes[i].points,
    ) by {
        assert(one_per_minute(met[i].points)) by {
            if i < s.nodes.len() {
                assert(one_per_minute(s.nodes[i].points));
            }
        }
        if fire is Some && i == s.idx {
            a_minute_holds_its_last_sample(
                met[i].points,
                bucket(s.ts_ns, MINUTE_MS) as i64,
                fire->Some_0,
            );
        }
    }
}

/// What a sampler is told: that a tick opens, or what the tick's next node did.
pub enum Told {
    Open { ts_ns: i64 },
    On { fresh: SeriesView, fire: Option<FiredView> },
}

/// The sampler that was told `log`, from the first.
pub open spec fn told(log: Seq<Told>) -> SamplerView
    decreases log.len(),
{
    if log.len() == 0 {
        SamplerView { ts_ns: 0, idx: 0, nodes: Seq::empty() }
    } else {
        let s = told(log.drop_last());
        match log.last() {
            Told::Open { ts_ns } => SamplerView { ts_ns, idx: 0, ..s },
            Told::On { fresh, fire } => s.reported(fresh, fire),
        }
    }
}

/// When the open tick is; zero where none was opened.
pub open spec fn opened_at(log: Seq<Told>) -> i64
    decreases log.len(),
{
    if log.len() == 0 {
        0
    } else {
        match log.last() {
            Told::Open { ts_ns } => ts_ns,
            Told::On { .. } => opened_at(log.drop_last()),
        }
    }
}

/// How many nodes reported on the open tick, which is the place of the next one.
pub open spec fn turn(log: Seq<Told>) -> nat
    decreases log.len(),
{
    if log.len() == 0 {
        0
    } else {
        match log.last() {
            Told::Open { .. } => 0,
            Told::On { .. } => turn(log.drop_last()) + 1,
        }
    }
}

/// The fires of the node in place `i`, in order, each in the minute its tick fell in.
pub open spec fn fires_of(log: Seq<Told>, i: nat) -> Seq<Sampled>
    decreases log.len(),
{
    if log.len() == 0 {
        Seq::empty()
    } else {
        let d = log.drop_last();
        let r = fires_of(d, i);
        match log.last() {
            Told::On { fire: Some(f), .. } => if turn(d) == i {
                r.push(Sampled { minute: bucket(opened_at(d), MINUTE_MS) as i64, fire: f })
            } else {
                r
            },
            _ => r,
        }
    }
}

/// How the node in place `i` told of itself the first time it reported.
pub open spec fn met_as(log: Seq<Told>, i: nat) -> Option<SeriesView>
    decreases log.len(),
{
    if log.len() == 0 {
        None
    } else {
        let d = log.drop_last();
        match (met_as(d, i), log.last()) {
            (None, Told::On { fresh, .. }) => if turn(d) == i {
                Some(fresh)
            } else {
                None
            },
            (r, _) => r,
        }
    }
}

/// A day's series are what its ticks told: whatever the order of `open` and `on`, there is one series for
/// each place some node reported in, named as the first report there told it, and its points are the
/// fires of that place, minute by minute.
pub proof fn a_day_is_what_its_ticks_told(log: Seq<Told>)
    requires
        forall|k: int|
            #![trigger log[k]]
            0 <= k < log.len() && log[k] is On ==> log[k]->fresh.points.len() == 0,
    ensures
        told(log).ts_ns == opened_at(log),
        told(log).idx == turn(log),
        turn(log) <= told(log).nodes.len(),
        forall|i: nat| #[trigger] met_as(log, i) is Some <==> i < told(log).nodes.len(),
        forall|i: nat|
            #![trigger fires_of(log, i)]
            i >= told(log).nodes.len() ==> fires_of(log, i).len() == 0,
        forall|i: nat|
            #![trigger told(log).nodes[i as int]]
            i < told(log).nodes.len() ==> told(log).nodes[i as int] == (SeriesView {
                points: sampled_all(fires_of(log, i)),
                ..met_as(log, i)->Some_0
            }),
    decreases log.len(),
{
    if log.len() > 0 {
        let d = log.drop_last();
        let was = told(d);
        let now = told(log);
        assert forall|k: int| #![trigger d[k]] 0 <= k < d.len() && d[k] is On implies d[k]->fresh.points.len()
            == 0 by {
            assert(d[k] == log[k]);
        }
        a_day_is_what_its_ticks_told(d);
        match log.last() {
            Told::Open { ts_ns } => {
                assert(now.nodes == was.nodes);
                assert forall|i: nat| #[trigger] met_as(log, i) is Some <==> i
                    < now.nodes.len() by {
                    assert(met_as(d, i) is Some <==> i < was.nodes.len());
                }
                assert forall|i: nat|
                    #![trigger fires_of(log, i)]
                    i >= now.nodes.len() implies fires_of(log, i).len() == 0 by {
                    assert(fires_of(d, i).len() == 0);
                }
                assert forall|i: nat|
                    #![trigger now.nodes[i as int]]
                    i < now.nodes.len() implies now.nodes[i as int] == (SeriesView {
                    points: sampled_all(fires_of(log, i)),
                    ..met_as(log, i)->Some_0
                }) by {
                    assert(was.nodes[i as int] == now.nodes[i as int]);
                }
            },
            Told::On { fresh, fire } => {
                let at = turn(d);
                assert(log[log.len() - 1] == log.last());
                crate::keeping::lemma_bucket(was.ts_ns, MINUTE_MS);
                assert(met_as(d, at) is Some <==> at < was.nodes.len());
                assert forall|i: nat| #[trigger] met_as(log, i) is Some <==> i
                    < now.nodes.len() by {
                    assert(met_as(d, i) is Some <==> i < was.nodes.len());
                }
                assert forall|i: nat|
                    #![trigger fires_of(log, i)]
                    i >= now.nodes.len() implies fires_of(log, i).len() == 0 by {
                    assert(fires_of(d, i).len() == 0);
                }
                assert forall|i: nat|
                    #![trigger now.nodes[i as int]]
                    i < now.nodes.len() implies now.nodes[i as int] == (SeriesView {
                    points: sampled_all(fires_of(log, i)),
                    ..met_as(log, i)->Some_0
                }) by {
                    if i < was.nodes.len() {
                        assert(was.nodes[i as int] == was.met(fresh)[i as int]);
                        assert(met_as(d, i) is Some);
                    } else {
                        assert(fires_of(d, i).len() == 0);
                        assert(fires_of(d, i) =~= Seq::empty());
                        assert(sampled_all(fires_of(d, i)) == Seq::<PointView>::empty());
                        assert(fresh.points =~= Seq::empty());
                    }
                    if i == at && fire is Some {
                        assert(fires_of(log, i).drop_last() =~= fires_of(d, i));
                    }
                }
            },
        }
    }
}

/// Which events are ticked to get where a step or a seek goes: the graph is made afresh first where
/// `reset` says so, the events `from..quiet` are ticked unobserved, and `observed` is ticked under
/// observation.
#[derive(Clone, Copy, Debug, PartialEq, Eq)]
pub struct Plan {
    pub reset: bool,
    pub from: usize,
    pub quiet: usize,
    pub observed: Option<usize>,
}

/// A session's frame.
pub struct SessionFrame {
    pub tick: usize,
    pub total: usize,
    pub ts_ns: i64,
    pub activations: Vec<Activation>,
}

/// What a [`SessionFrame`] says.
#[verifier::ext_equal]
pub struct SessionFrameView {
    pub tick: nat,
    pub total: nat,
    pub ts_ns: i64,
    pub activations: Seq<ActivationView>,
}

impl View for SessionFrame {
    type V = SessionFrameView;

    open spec fn view(&self) -> SessionFrameView {
        SessionFrameView {
            tick: self.tick as nat,
            total: self.total as nat,
            ts_ns: self.ts_ns,
            activations: self.activations.deep_view(),
        }
    }
}

/// A replay session's position.
pub struct ReplaySession {
    /// The events' timestamps.
    pub times: Vec<i64>,
    /// Number of consumed events; the frame describes the tick that consumed the one before it.
    pub cursor: usize,
    /// The last observed tick.
    pub last: Vec<Activation>,
}

/// What a [`ReplaySession`] holds.
#[verifier::ext_equal]
pub struct SessionView {
    pub times: Seq<i64>,
    pub cursor: nat,
    pub last: Seq<ActivationView>,
}

impl View for ReplaySession {
    type V = SessionView;

    open spec fn view(&self) -> SessionView {
        SessionView {
            times: self.times@,
            cursor: self.cursor as nat,
            last: self.last.deep_view(),
        }
    }
}

impl SessionView {
    /// The cursor is within the stream.
    pub open spec fn ok(self) -> bool {
        self.cursor <= self.times.len()
    }

    /// Where a step of `n` from `at` ends.
    pub open spec fn reach(self, at: nat, n: nat) -> nat {
        least(at + n, self.times.len())
    }

    /// The session once the events up to `to` are consumed: the last tick is what was observed of it,
    /// if one was ticked at all.
    pub open spec fn arrived(self, to: nat, seen: Seq<ActivationView>) -> SessionView {
        SessionView {
            cursor: to,
            last: if to > self.cursor {
                seen
            } else {
                self.last
            },
            ..self
        }
    }

    /// The session before its first event.
    pub open spec fn restarted(self) -> SessionView {
        SessionView { cursor: 0, last: Seq::empty(), ..self }
    }

    /// Where a seek to `tick` starts from: a tick behind the cursor is reached from the start.
    pub open spec fn seek_base(self, tick: nat) -> SessionView {
        if tick < self.cursor {
            self.restarted()
        } else {
            self
        }
    }

    /// What a step of `n` ticks.
    pub open spec fn step_plan(self, n: nat) -> Plan {
        plan_of(false, self.cursor, self.reach(self.cursor, n))
    }

    /// What a seek to `tick` ticks.
    pub open spec fn seek_plan(self, tick: nat) -> Plan {
        plan_of(
            tick < self.cursor,
            self.seek_base(tick).cursor,
            least(tick, self.times.len()),
        )
    }

    /// The session once a plan is carried out, where `seen` is what the observed tick showed.
    pub open spec fn carried_out(self, p: Plan, seen: Seq<ActivationView>) -> SessionView {
        let base = if p.reset {
            self.restarted()
        } else {
            self
        };
        match p.observed {
            Some(i) => base.arrived((i + 1) as nat, seen),
            None => base,
        }
    }

    /// The frame.
    pub open spec fn frame_view(self) -> SessionFrameView {
        SessionFrameView {
            tick: self.cursor,
            total: self.times.len(),
            ts_ns: if self.cursor > 0 {
                self.times[self.cursor - 1]
            } else {
                0
            },
            activations: self.last,
        }
    }
}

/// The plan that gets from `at` to `to`: all but the final tick unobserved.
pub open spec fn plan_of(reset: bool, at: nat, to: nat) -> Plan {
    Plan {
        reset,
        from: at as usize,
        quiet: if at < to {
            (to - 1) as usize
        } else {
            at as usize
        },
        observed: if at < to {
            Some((to - 1) as usize)
        } else {
            None
        },
    }
}

/// Some node fired under that name.
pub open spec fn fired_as(last: Seq<ActivationView>, node: Seq<char>) -> bool {
    exists|k: int| #![trigger last[k]] 0 <= k < last.len() && last[k].fired && last[k].node == node
}

/// What the newest activation of a node among the first `n` shows, of those asked for.
pub open spec fn baseline(
    last: Seq<ActivationView>,
    nodes: Seq<Seq<char>>,
    node: Seq<char>,
    n: nat,
) -> Option<Seq<char>>
    decreases n,
{
    if n == 0 {
        None
    } else if nodes.contains(last[n - 1].node) && last[n - 1].node == node {
        Some(last[n - 1].out)
    } else {
        baseline(last, nodes, node, (n - 1) as nat)
    }
}

/// Some node asked for fired with another output than it had in `was`.
pub open spec fn changed(
    was: Seq<ActivationView>,
    now: Seq<ActivationView>,
    nodes: Seq<Seq<char>>,
) -> bool {
    exists|k: int|
        #![trigger now[k]]
        0 <= k < now.len() && now[k].fired && nodes.contains(now[k].node) && baseline(
            was,
            nodes,
            now[k].node,
            was.len(),
        ) != Some(now[k].out)
}

impl ReplaySession {
    /// A session before its first event.
    pub fn new(times: Vec<i64>) -> (r: ReplaySession)
        ensures
            r@.ok(),
            r@ == (SessionView { times: times@, cursor: 0, last: Seq::empty() }),
    {
        let ghost tv = times@;
        let r = ReplaySession { times, cursor: 0, last: Vec::new() };
        assert(r@ =~= SessionView { times: tv, cursor: 0, last: Seq::empty() });
        r
    }

    /// The frame.
    pub fn frame(&self) -> (r: SessionFrame)
        requires
            self@.ok(),
        ensures
            r@ == self@.frame_view(),
    {
        let ts_ns: i64 = if self.cursor > 0 {
            self.times[self.cursor - 1]
        } else {
            0
        };
        let activations: Vec<Activation> = self.last.clone();
        assert(activations.deep_view() =~= self.last.deep_view());
        SessionFrame { tick: self.cursor, total: self.times.len(), ts_ns, activations }
    }

    /// What a step of `n` ticks.
    pub fn step(&self, n: usize) -> (p: Plan)
        requires
            self@.ok(),
            self.cursor + n <= usize::MAX,
        ensures
            p == self@.step_plan(n as nat),
    {
        self.plan(false, self.cursor, n)
    }

    /// What a seek to `tick` ticks.
    pub fn seek(&self, tick: usize) -> (p: Plan)
        requires
            self@.ok(),
        ensures
            p == self@.seek_plan(tick as nat),
    {
        if tick < self.cursor {
            self.plan(true, 0, tick)
        } else {
            self.plan(false, self.cursor, tick - self.cursor)
        }
    }

    fn plan(&self, reset: bool, at: usize, n: usize) -> (p: Plan)
        requires
            at <= self@.times.len(),
            at + n <= usize::MAX,
        ensures
            p == plan_of(reset, at as nat, self@.reach(at as nat, n as nat)),
    {
        let want: usize = at + n;
        let total: usize = self.times.len();
        let to: usize = if want <= total {
            want
        } else {
            total
        };
        if at < to {
            Plan { reset, from: at, quiet: to - 1, observed: Some(to - 1) }
        } else {
            Plan { reset, from: at, quiet: at, observed: None }
        }
    }

    /// Takes in what a plan came to: `seen` is what the observed tick showed.
    pub fn arrive(&mut self, p: &Plan, seen: Vec<Activation>)
        requires
            old(self)@.ok(),
            p.reset || p.from == old(self)@.cursor,
            p.reset ==> p.from == 0,
            p.observed matches Some(i) ==> p.from <= i < old(self)@.times.len(),
        ensures
            final(self)@.ok(),
            final(self)@ == old(self)@.carried_out(*p, seen.deep_view()),
    {
        let ghost was = self@;
        let total: usize = self.times.len();
        if p.reset {
            self.cursor = 0;
            self.last = Vec::new();
            assert(self@ =~= was.restarted());
        }
        match p.observed {
            Some(i) => {
                assert(i < total);
                self.cursor = i + 1;
                self.last = seen;
            },
            None => {},
        }
    }

    /// The next event a search observes, `None` at the end of the stream.
    pub fn next(&self) -> (r: Option<usize>)
        requires
            self@.ok(),
        ensures
            match r {
                Some(i) => i == self@.cursor && i < self@.times.len(),
                None => self@.cursor == self@.times.len(),
            },
    {
        if self.cursor < self.times.len() {
            Some(self.cursor)
        } else {
            None
        }
    }

    /// Whether the last tick is one a search for `node` stops on.
    pub fn stops_at(&self, node: &str) -> (r: bool)
        ensures
            r == fired_as(self@.last, node@),
    {
        let ghost lv = self@.last;
        let mut k: usize = 0;
        while k < self.last.len()
            invariant
                lv == self.last.deep_view(),
                k <= self.last@.len(),
                forall|j: int|
                    #![trigger lv[j]]
                    0 <= j < k ==> !(lv[j].fired && lv[j].node == node@),
            decreases self.last@.len() - k,
        {
            assert(lv[k as int] == self.last@[k as int].deep_view());
            if self.last[k].fired && same(self.last[k].node.as_str(), node) {
                return true;
            }
            k += 1;
        }
        false
    }

    /// Whether the last tick is one a search for a change since `was` stops on.
    pub fn stops_on_change(&self, was: &[Activation], nodes: &[String]) -> (r: bool)
        ensures
            r == changed(was.deep_view(), self@.last, nodes.deep_view()),
    {
        let ghost lv = self@.last;
        let ghost wv = was.deep_view();
        let ghost nv = nodes.deep_view();
        let mut k: usize = 0;
        while k < self.last.len()
            invariant
                lv == self.last.deep_view(),
                wv == was.deep_view(),
                nv == nodes.deep_view(),
                k <= self.last@.len(),
                forall|j: int|
                    #![trigger lv[j]]
                    0 <= j < k ==> !(lv[j].fired && nv.contains(lv[j].node) && baseline(
                        wv,
                        nv,
                        lv[j].node,
                        wv.len(),
                    ) != Some(lv[j].out)),
            decreases self.last@.len() - k,
        {
            assert(lv[k as int] == self.last@[k as int].deep_view());
            let a: &Activation = &self.last[k];
            if a.fired && contains(nodes, a.node.as_str()) {
                let stuck: bool = match shown_before(was, nodes, a.node.as_str()) {
                    Some(out) => same(out, a.out.as_str()),
                    None => false,
                };
                if !stuck {
                    return true;
                }
            }
            k += 1;
        }
        false
    }
}

/// What a node showed before, of those asked for.
fn shown_before<'a>(was: &'a [Activation], nodes: &[String], node: &str) -> (r: Option<&'a str>)
    ensures
        match r {
            Some(out) => baseline(was.deep_view(), nodes.deep_view(), node@, was@.len()) == Some(
                out@,
            ),
            None => baseline(was.deep_view(), nodes.deep_view(), node@, was@.len()) is None,
        },
{
    let ghost wv = was.deep_view();
    let ghost nv = nodes.deep_view();
    let mut n: usize = was.len();
    while n > 0
        invariant
            wv == was.deep_view(),
            nv == nodes.deep_view(),
            n <= was@.len(),
            baseline(wv, nv, node@, was@.len()) == baseline(wv, nv, node@, n as nat),
        decreases n,
    {
        assert(wv[n - 1] == was@[n - 1].deep_view());
        if contains(nodes, was[n - 1].node.as_str()) && same(was[n - 1].node.as_str(), node) {
            return Some(was[n - 1].out.as_str());
        }
        n -= 1;
    }
    None
}

/// A seek ticks exactly the events up to where it goes, from the start where it goes back: what the
/// graph has seen then is the stream's first `tick` events, whatever the session did before.
pub proof fn a_seek_replays_the_stream(s: SessionView, tick: nat)
    requires
        s.ok(),
        s.times.len() <= usize::MAX,
        tick <= usize::MAX,
    ensures
        ({
            let to = least(tick, s.times.len());
            let p = s.seek_plan(tick);
            &&& p.reset ==> p.from == 0
            &&& !p.reset ==> p.from == s.cursor
            &&& p.from <= p.quiet
            &&& (match p.observed {
                Some(i) => i == p.quiet && i + 1 == to,
                None => p.quiet == p.from && p.from == to,
            })
        }),
{
}

/// Stepping and seeking agree: a step of `n` is a seek to the tick `n` past the cursor.
pub proof fn a_step_is_a_seek(s: SessionView, n: nat)
    requires
        s.ok(),
    ensures
        s.step_plan(n) == s.seek_plan(s.cursor + n),
{
}

/// The numbers from `a` up to `b`.
pub open spec fn span(a: nat, b: nat) -> Seq<nat> {
    Seq::new(
        if a <= b {
            (b - a) as nat
        } else {
            0
        },
        |k: int| (a + k) as nat,
    )
}

/// A session, and the events its graph was ticked with since it was made, in order.
#[verifier::ext_equal]
pub struct Run {
    pub session: SessionView,
    pub ticked: Seq<nat>,
}

impl Run {
    /// A session before its first event, on a graph made afresh.
    pub open spec fn fresh(times: Seq<i64>) -> Run {
        Run {
            session: SessionView { times, cursor: 0, last: Seq::empty() },
            ticked: Seq::empty(),
        }
    }

    /// The run once a plan is carried out on a graph that shows `graph` of the events it was ticked
    /// with.
    pub open spec fn performed(self, p: Plan, graph: spec_fn(Seq<nat>) -> Seq<ActivationView>) -> Run {
        let quiet = (if p.reset {
            Seq::empty()
        } else {
            self.ticked
        }) + span(p.from as nat, p.quiet as nat);
        let ticked = match p.observed {
            Some(i) => quiet.push(i as nat),
            None => quiet,
        };
        Run { session: self.session.carried_out(p, graph(ticked)), ticked }
    }

    /// The graph was ticked with exactly the events consumed, and the last tick shown is the last of
    /// them.
    pub open spec fn faithful(self, graph: spec_fn(Seq<nat>) -> Seq<ActivationView>) -> bool {
        &&& self.session.ok()
        &&& self.ticked == span(0, self.session.cursor)
        &&& self.session.last == if self.session.cursor > 0 {
            graph(self.ticked)
        } else {
            Seq::empty()
        }
    }
}

/// The session before its first event is faithful to any graph.
pub proof fn a_fresh_run_is_faithful(
    times: Seq<i64>,
    graph: spec_fn(Seq<nat>) -> Seq<ActivationView>,
)
    ensures
        Run::fresh(times).faithful(graph),
{
    assert(span(0, 0) =~= Seq::empty());
}

/// Determinism is the storage: a seek from wherever the session stands, back or forth, ends in the very
/// state that stepping there from the start does, and the frame says so. It is on the tick asked for or
/// on the last there is, at that tick's time, and shows what the graph shows of the events up to it; a
/// seek to the start shows nothing at time zero.
pub proof fn a_seek_is_a_fresh_run(
    r: Run,
    graph: spec_fn(Seq<nat>) -> Seq<ActivationView>,
    tick: nat,
)
    requires
        r.faithful(graph),
        r.session.times.len() <= usize::MAX,
    ensures
        ({
            let times = r.session.times;
            let fresh = Run::fresh(times);
            let to = least(tick, times.len());
            let there = r.performed(r.session.seek_plan(tick), graph);
            &&& there.faithful(graph)
            &&& there == fresh.performed(fresh.session.step_plan(tick), graph)
            &&& there.session.frame_view() == (SessionFrameView {
                tick: to,
                total: times.len(),
                ts_ns: if to > 0 {
                    times[to - 1]
                } else {
                    0
                },
                activations: if to > 0 {
                    graph(span(0, to))
                } else {
                    Seq::empty()
                },
            })
        }),
{
    let fresh = Run::fresh(r.session.times);
    let to = least(tick, r.session.times.len());
    a_fresh_run_is_faithful(r.session.times, graph);
    lemma_performed(r, graph, tick < r.session.cursor, to);
    lemma_performed(fresh, graph, false, to);
}

/// A plan that ends at `to` leaves a faithful run there.
proof fn lemma_performed(
    r: Run,
    graph: spec_fn(Seq<nat>) -> Seq<ActivationView>,
    reset: bool,
    to: nat,
)
    requires
        r.faithful(graph),
        r.session.times.len() <= usize::MAX,
        to <= r.session.times.len(),
        !reset ==> r.session.cursor <= to,
    ensures
        ({
            let at = if reset {
                0
            } else {
                r.session.cursor
            };
            let there = r.performed(plan_of(reset, at, to), graph);
            &&& there.faithful(graph)
            &&& there.session.cursor == to
            &&& there.session.times == r.session.times
        }),
{
    let at: nat = if reset {
        0
    } else {
        r.session.cursor
    };
    let p = plan_of(reset, at, to);
    let there = r.performed(p, graph);
    let base: Seq<nat> = if reset {
        Seq::empty()
    } else {
        r.ticked
    };
    assert(base =~= span(0, at));
    if at < to {
        assert(base + span(at, (to - 1) as nat) =~= span(0, (to - 1) as nat));
        assert(span(0, (to - 1) as nat).push((to - 1) as nat) =~= span(0, to));
    } else {
        assert(base + span(at, at) =~= span(0, at));
    }
}

} // verus!
