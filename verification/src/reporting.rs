//! The laws of recording: what a node reports, field by field, is what is read back of it.
use vstd::prelude::*;
use vstd::utf8::encode_utf8;

use crate::acts::{ActRef, Acts, Report};
use crate::api_types::Activation;
use crate::floats::{finite, finite_slots, nan, number_slots, zero, Bits};
use crate::keeping::lemma_with_nodes;
use crate::model::{absorbed, gated, with_nodes, MetaView, MsgView, TapeView};
use crate::names::shown_name;
use crate::recorder::{
    a_full_sweep_is_taken, a_sweep_reads_back, named, read_back, ticked_all, Backpressure, Fire,
    Recorder, RecorderView, Refusal, Said, Sweep,
};

verus! {

/// `s` is there exactly where `xs` holds something, and then it is `xs`.
pub open spec fn is_column(s: Option<Seq<Bits>>, xs: Option<Seq<Bits>>) -> bool {
    match xs {
        Some(x) => if x.len() > 0 {
            s == Some(x)
        } else {
            s is None
        },
        None => s is None,
    }
}

/// The contents of an optional slice.
pub open spec fn sliced<T>(s: Option<&[T]>) -> Option<Seq<T>> {
    match s {
        Some(x) => Some(x@),
        None => None,
    }
}

/// What one report leaves on a tick is that report, each field by its own: the values and the Jacobian
/// it came with, however the Jacobian was reached, the exact columns with their widths, both flags, and
/// the rendering where there are values. The acts of the nodes before it are as they were.
pub proof fn a_report_is_kept_field_by_field(was: Acts, now: Acts, f: Report<'_>, r: ActRef<'_>)
    requires
        now@ == was@.push(f.act()),
        r@ == now@[was@.len() as int],
    ensures
        now@.len() == was@.len() + 1,
        forall|k: int| #![trigger now@[k]] 0 <= k < was@.len() ==> now@[k] == was@[k],
        f.vals is Some ==> r.out@ == f.glance@,
        f.vals is None ==> r.out@.len() == 0,
        r.ran == f.ran,
        r.exact == f.exact,
        is_column(sliced(r.vals), sliced(f.vals)),
        is_column(sliced(r.jac), sliced(f.jac)),
        match f.exact_block {
            Some((c, w)) => if c@.len() > 0 {
                r.block is Some && r.block->Some_0.0@ == c@ && r.block->Some_0.1@ == w@
            } else {
                r.block is None
            },
            None => r.block is None,
        },
{
    assert(now@[was@.len() as int] == f.act());
    assert(r@.vals == f.act().vals);
    assert(r@.jac == f.act().jac);
    assert(r@.block == f.act().block);
}

/// What is read of one node's act says nothing of another's: pushing one report or another changes no
/// act but the one pushed.
pub proof fn a_report_leaves_the_others(was: Acts, a: Acts, b: Acts, f: Report<'_>, g: Report<'_>, k: int)
    requires
        a@ == was@.push(f.act()),
        b@ == was@.push(g.act()),
        0 <= k < was@.len(),
    ensures
        a@[k] == b@[k],
        a@.len() == b@.len(),
{
}

/// A report has room exactly while no column outgrows the width its end is stored in; a report that
/// adds no values adds no text either.
pub proof fn a_report_fits_while_its_ends_do(a: Acts, f: Report<'_>)
    ensures
        a.room(f) <==> {
            &&& encode_utf8(a.outs@).len() + (if f.vals is Some {
                encode_utf8(f.glance@).len()
            } else {
                0
            }) <= 0xffff_ffff
            &&& a.vals@.len() + (match f.vals {
                Some(v) => v@.len(),
                None => 0,
            }) <= 0xffff_ffff
            &&& a.jac@.len() + (match f.jac {
                Some(v) => v@.len(),
                None => 0,
            }) <= 0xffff_ffff
            &&& a.block@.len() + (match f.exact_block {
                Some((c, _)) => c@.len(),
                None => 0,
            }) <= 0xffff_ffff
            &&& a.widths@.len() + (match f.exact_block {
                Some((_, w)) => w@.len(),
                None => 0,
            }) <= 0xffff_ffff
        },
{
    vstd::utf8::encode_utf8_valid_utf8(Seq::<char>::empty());
    assert(encode_utf8(Seq::<char>::empty()).len() == 0);
}

/// How many of the first `n` flags are set.
pub open spec fn set_before(flags: Seq<bool>, n: nat) -> nat
    decreases n,
{
    if n == 0 {
        0
    } else {
        set_before(flags, (n - 1) as nat) + if flags[n - 1] {
            1nat
        } else {
            0nat
        }
    }
}

/// `gates` are the shown names of the dependencies that are flagged, each once and in their order;
/// `n` of the dependencies have a flag.
pub open spec fn names_the_flagged(
    gates: Seq<Seq<char>>,
    deps: Seq<Seq<char>>,
    flags: Seq<bool>,
    n: nat,
) -> bool {
    &&& gates.len() == set_before(flags, n)
    &&& forall|k: int|
        #![trigger flags[k]]
        0 <= k < n && flags[k] ==> set_before(flags, k as nat) < gates.len() && gates[set_before(
            flags,
            k as nat,
        ) as int] == shown_name(deps[k])
}

/// `names` are `raw` as cards show them, one for one.
pub open spec fn names_each(names: Seq<Seq<char>>, raw: Seq<Seq<char>>) -> bool {
    names.len() == raw.len() && forall|k: int|
        #![trigger names[k]]
        0 <= k < raw.len() ==> names[k] == shown_name(raw[k])
}

proof fn lemma_flagged(deps: Seq<Seq<char>>, flags: Seq<bool>, n: nat)
    ensures
        names_the_flagged(gated(deps, flags, n), deps, flags, n),
    decreases n,
{
    if n > 0 {
        let m = (n - 1) as nat;
        lemma_flagged(deps, flags, m);
        let g = gated(deps, flags, n);
        assert forall|k: int| #![trigger flags[k]] 0 <= k < n && flags[k] implies set_before(
            flags,
            k as nat,
        ) < g.len() && g[set_before(flags, k as nat) as int] == shown_name(deps[k]) by {
            if k < m {
                assert(set_before(flags, k as nat) < gated(deps, flags, m).len());
            }
        }
    }
}

/// A node is listed as it told of itself: under its shown name, with all of its dependencies, with those
/// of them as gates that it flagged, and with its shape, its plots, its fidelity and its derivative; its
/// series is its own, empty, and has its clock.
pub proof fn a_node_is_listed_as_it_told(m: MetaView)
    ensures
        m.topo().node == shown_name(m.node),
        names_each(m.topo().deps, m.deps),
        m.deps.len() <= m.gates.len() ==> names_the_flagged(
            m.topo().gates,
            m.deps,
            m.gates,
            m.deps.len(),
        ),
        m.gates.len() <= m.deps.len() ==> names_the_flagged(
            m.topo().gates,
            m.deps,
            m.gates,
            m.gates.len(),
        ),
        m.topo().dims == m.dims,
        m.topo().plots == m.plots,
        m.topo().fidelity == m.fidelity,
        m.topo().deriv == m.deriv,
        m.topo().cost_ns is None,
        m.series().node == m.topo().node,
        m.series().deps == m.topo().deps,
        m.series().gates == m.topo().gates,
        m.series().dims == m.dims,
        m.series().plots == m.plots,
        m.series().clock_ms == m.clock_ms,
        m.series().points.len() == 0,
{
    lemma_flagged(m.deps, m.gates, m.flagged());
}

/// What a fire says of its node is what the node is known by.
pub proof fn a_fire_tells_of_its_node(
    f: Fire<'_>,
    node: Seq<char>,
    deps: Seq<Seq<char>>,
    gates: Seq<bool>,
)
    ensures
        f.meta(node, deps, gates).node == node,
        f.meta(node, deps, gates).deps == deps,
        f.meta(node, deps, gates).gates == gates,
        f.meta(node, deps, gates).dims == f.dims@,
        f.meta(node, deps, gates).plots == f.plots.deep_view(),
        f.meta(node, deps, gates).clock_ms == f.clock_ms,
        f.meta(node, deps, gates).fidelity == f.fidelity.deep_view(),
        f.meta(node, deps, gates).deriv == f.deriv.deep_view(),
{
}

/// A node as the tape knows it is the node that told `m` of itself.
pub open spec fn is_known_as(t: TapeView, j: int, m: MetaView) -> bool {
    &&& t.topology[j].node == shown_name(m.node)
    &&& names_each(t.topology[j].deps, m.deps)
    &&& names_the_flagged(
        t.topology[j].gates,
        m.deps,
        m.gates,
        if m.deps.len() < m.gates.len() {
            m.deps.len()
        } else {
            m.gates.len()
        },
    )
    &&& t.topology[j].dims == m.dims
    &&& t.topology[j].plots == m.plots
    &&& t.topology[j].fidelity == m.fidelity
    &&& t.topology[j].deriv == m.deriv
    &&& t.series[j].node == t.topology[j].node
    &&& t.series[j].deps == t.topology[j].deps
    &&& t.series[j].gates == t.topology[j].gates
    &&& t.series[j].dims == m.dims
    &&& t.series[j].plots == m.plots
    &&& t.series[j].clock_ms == m.clock_ms
}

/// Recorder and tape hold between them who every node is: `ids` in step order, those the tape knows
/// first, those still owed to it after them.
pub open spec fn identified(r: RecorderView, t: TapeView, ids: Seq<MetaView>) -> bool {
    &&& r.raw.len() == ids.len()
    &&& t.nodes() + r.meta.len() == ids.len()
    &&& t.even()
    &&& forall|j: int| #![trigger ids[j]] 0 <= j < ids.len() ==> r.raw[j] == ids[j].node
    &&& forall|j: int| #![trigger t.topology[j]] 0 <= j < t.nodes() ==> is_known_as(t, j, ids[j])
    &&& forall|k: int|
        #![trigger r.meta[k]]
        0 <= k < r.meta.len() ==> r.meta[k] == ids[t.nodes() + k]
}

/// Who is known once the reports of a tick came in: a place that never reported before is taken by who
/// reports in it.
pub open spec fn met_by(ids: Seq<MetaView>, said: Seq<Said>) -> Seq<MetaView>
    decreases said.len(),
{
    if said.len() == 0 {
        ids
    } else {
        let r = met_by(ids, said.drop_last());
        if said.len() > ids.len() {
            r.push(said.last().meta)
        } else {
            r
        }
    }
}

proof fn lemma_met_by(ids: Seq<MetaView>, said: Seq<Said>)
    ensures
        met_by(ids, said).len() == if said.len() > ids.len() {
            said.len()
        } else {
            ids.len()
        },
        forall|j: int| #![trigger met_by(ids, said)[j]] 0 <= j < ids.len() ==> met_by(ids, said)[j]
            == ids[j],
        forall|j: int|
            #![trigger met_by(ids, said)[j]]
            ids.len() <= j < said.len() ==> met_by(ids, said)[j] == said[j].meta,
    decreases said.len(),
{
    if said.len() > 0 {
        lemma_met_by(ids, said.drop_last());
    }
}

proof fn lemma_swept_identified(r: RecorderView, t: TapeView, ids: Seq<MetaView>, said: Seq<Said>)
    requires
        identified(r, t, ids),
        r.idx == 0,
    ensures
        identified(r.swept(said), t, met_by(ids, said)),
        r.swept(said).idx == said.len(),
    decreases said.len(),
{
    if said.len() > 0 {
        let d = said.drop_last();
        let s = said.last();
        lemma_swept_identified(r, t, ids, d);
        lemma_met_by(ids, d);
        lemma_met_by(ids, said);
        let was = r.swept(d);
        let now = r.swept(said);
        let mid = was.reported(s.meta, s.act, s.entry_ns);
        let before = met_by(ids, d);
        let after = met_by(ids, said);
        assert(now.raw == mid.raw && now.meta == mid.meta && now.idx == mid.idx);
        assert forall|j: int| #![trigger after[j]] 0 <= j < after.len() implies now.raw[j]
            == after[j].node by {
            if j < before.len() {
                assert(before[j] == after[j]);
                assert(was.raw[j] == before[j].node);
            }
        }
        assert forall|j: int| #![trigger t.topology[j]] 0 <= j < t.nodes() implies is_known_as(
            t,
            j,
            after[j],
        ) by {
            assert(is_known_as(t, j, before[j]));
            assert(before[j] == after[j]);
        }
        assert forall|k: int| #![trigger now.meta[k]] 0 <= k < now.meta.len() implies now.meta[k]
            == after[t.nodes() + k] by {
            if k < was.meta.len() {
                assert(was.meta[k] == before[t.nodes() + k]);
                assert(before[t.nodes() + k] == after[t.nodes() + k]);
            }
        }
    }
}

proof fn lemma_landed_identified(r: RecorderView, t: TapeView, ids: Seq<MetaView>)
    requires
        identified(r, t, ids),
    ensures
        identified(r.handed_over(), absorbed(t, r.message()), ids),
{
    let z = absorbed(t, r.message());
    let a = with_nodes(t, r.meta);
    lemma_with_nodes(t, r.meta);
    let l = crate::model::landed(t, r.message());
    crate::thinning::lemma_squeezed_len(
        crate::model::rows(l.ticks, crate::model::under(l.ticks, crate::model::whole(l))),
        l.keep,
        l.capacity / 4,
    );
    assert forall|j: int| #![trigger z.topology[j]] 0 <= j < z.nodes() implies is_known_as(
        z,
        j,
        ids[j],
    ) by {
        assert(z.topology[j] == a.topology[j]);
        assert(z.series[j] == (crate::api_types::SeriesView {
            points: z.series[j].points,
            ..a.series[j]
        }));
        if j < t.nodes() {
            assert(is_known_as(t, j, ids[j]));
        } else {
            assert(r.meta[j - t.nodes()] == ids[j]);
            a_node_is_listed_as_it_told(ids[j]);
        }
    }
}

/// Who reported over a run: in each place, who first reported in it.
pub open spec fn met_over(ws: Seq<Sweep>) -> Seq<MetaView>
    decreases ws.len(),
{
    if ws.len() == 0 {
        Seq::empty()
    } else {
        met_by(met_over(ws.drop_last()), ws.last().said)
    }
}

proof fn lemma_run_identified(mode: Backpressure, now_ns: u64, blank: TapeView, ws: Seq<Sweep>)
    requires
        blank.even(),
        blank.nodes() == 0,
    ensures
        ({
            let (r, t) = ticked_all((RecorderView::fresh(mode, now_ns), blank), ws);
            identified(r, t, met_over(ws))
        }),
    decreases ws.len(),
{
    if ws.len() > 0 {
        let d = ws.drop_last();
        let w = ws.last();
        lemma_run_identified(mode, now_ns, blank, d);
        let (r, t) = ticked_all((RecorderView::fresh(mode, now_ns), blank), d);
        let ids = met_over(d);
        let open = r.opening(w.ts_ns, w.now_ns);
        assert(identified(open, t, ids)) by {
            assert(open.raw == r.raw && open.meta == r.meta);
            assert forall|k: int| #![trigger open.meta[k]] 0 <= k < open.meta.len() implies open.meta[k]
                == ids[t.nodes() + k] by {
                assert(r.meta[k] == ids[t.nodes() + k]);
            }
        }
        lemma_swept_identified(open, t, ids, w.said);
        let full = open.swept(w.said);
        let after = met_by(ids, w.said);
        if w.lands {
            lemma_landed_identified(full, t, after);
        } else {
            let back = full.handed_over().refused(full.message());
            let u = TapeView { dropped: back.dropped, ..t };
            assert(back.raw == full.raw && back.meta == full.meta);
            assert forall|j: int| #![trigger u.topology[j]] 0 <= j < u.nodes() implies is_known_as(
                u,
                j,
                after[j],
            ) by {
                assert(is_known_as(t, j, after[j]));
            }
            assert forall|k: int| #![trigger back.meta[k]] 0 <= k < back.meta.len() implies back.meta[k]
                == after[u.nodes() + k] by {
                assert(full.meta[k] == after[t.nodes() + k]);
            }
        }
    }
}

/// A run shows who reported: over any run, whatever the handoff had room for, each node the tape knows
/// is the one that first reported in its place, told of as it told of itself, and a tick that lands
/// leaves none owed. The graph lists it so, and so does every frame that shows it, whether the recording
/// is over or not.
pub proof fn a_run_shows_who_reported(
    mode: Backpressure,
    now_ns: u64,
    blank: TapeView,
    ws: Seq<Sweep>,
    over: bool,
    j: int,
)
    requires
        blank.even(),
        blank.nodes() == 0,
        0 <= j < ticked_all((RecorderView::fresh(mode, now_ns), blank), ws).1.nodes(),
    ensures
        ({
            let (r, t) = ticked_all((RecorderView::fresh(mode, now_ns), blank), ws);
            let z = TapeView { sealed: over, ..t };
            let m = met_over(ws)[j];
            let f = z.frame();
            let g = z.outline();
            &&& ws.len() > 0 && ws.last().lands ==> t.nodes() == met_over(ws).len()
            &&& is_known_as(t, j, m)
            &&& j < g.len() ==> {
                &&& g[j].node == shown_name(m.node)
                &&& names_each(g[j].deps, m.deps)
                &&& g[j].gates == t.topology[j].gates
                &&& g[j].dims == m.dims
                &&& g[j].plots == m.plots
                &&& g[j].fidelity == m.fidelity
                &&& g[j].deriv == m.deriv
                &&& g[j].cost_ns == t.cost[j].ns
            }
            &&& j < f.activations.len() ==> {
                &&& f.activations[j].node == shown_name(m.node)
                &&& names_each(f.activations[j].deps, m.deps)
                &&& f.activations[j].gates == t.topology[j].gates
                &&& f.activations[j].dims == m.dims
                &&& f.activations[j].cost_ns == t.cost[j].ns
            }
        }),
{
    lemma_run_identified(mode, now_ns, blank, ws);
    let (r, t) = ticked_all((RecorderView::fresh(mode, now_ns), blank), ws);
    assert(is_known_as(t, j, met_over(ws)[j]));
    if ws.len() > 0 && ws.last().lands {
        assert(r.meta.len() == 0);
    }
}

/// A frame's activations are the graph's nodes in step order, each with the node's own identity: the
/// dependencies a Jacobian's columns are read by are those the graph lists.
pub proof fn a_frame_shows_the_graphs_nodes(t: TapeView, i: int)
    requires
        0 <= i < t.frame().activations.len(),
    ensures
        i < t.nodes(),
        t.frame().activations[i].node == t.topology[i].node,
        t.frame().activations[i].deps == t.topology[i].deps,
        t.frame().activations[i].gates == t.topology[i].gates,
        t.frame().activations[i].dims == t.topology[i].dims,
        t.frame().activations[i].cost_ns == t.cost[i].ns,
        t.outline().len() > 0 ==> {
            &&& t.outline()[i].node == t.frame().activations[i].node
            &&& t.outline()[i].deps == t.frame().activations[i].deps
            &&& t.outline()[i].gates == t.frame().activations[i].gates
            &&& t.outline()[i].dims == t.frame().activations[i].dims
            &&& t.outline()[i].cost_ns == t.frame().activations[i].cost_ns
        },
{
}

/// What the clock read `to` says of a step that began when it read `from`.
pub open spec fn elapsed(from: u64, to: u64) -> int {
    if to >= from {
        to - from
    } else {
        0
    }
}

proof fn lemma_swept_message(r: RecorderView, now_ns: u64, said: Seq<Said>)
    requires
        r.idx == 0,
        r.acts.len() == 0,
        r.timed ==> r.spans.len() == 0 && r.clock_ns == now_ns,
    ensures
        ({
            let z = r.swept(said);
            &&& z.idx == said.len()
            &&& z.timed == r.timed
            &&& z.ts_ns == r.ts_ns
            &&& z.opened == r.opened
            &&& z.dropped == r.dropped
            &&& z.mode == r.mode
            &&& z.acts.len() == said.len()
            &&& forall|k: int| #![trigger z.acts[k]] 0 <= k < said.len() ==> z.acts[k] == said[k].act
            &&& r.timed ==> z.spans.len() == said.len() && z.clock_ns == if said.len() == 0 {
                now_ns
            } else {
                said.last().exit_ns
            }
            &&& r.timed ==> forall|k: int|
                #![trigger z.spans[k]]
                0 <= k < said.len() ==> z.spans[k] == elapsed(
                    if k == 0 {
                        now_ns
                    } else {
                        said[k - 1].exit_ns
                    },
                    said[k].entry_ns,
                )
            &&& z.raw.len() == if said.len() > r.raw.len() {
                said.len()
            } else {
                r.raw.len()
            }
            &&& forall|k: int| #![trigger z.raw[k]] 0 <= k < r.raw.len() ==> z.raw[k] == r.raw[k]
            &&& forall|k: int|
                #![trigger z.raw[k]]
                r.raw.len() <= k < said.len() ==> z.raw[k] == said[k].meta.node
            &&& z.meta.len() == r.meta.len() + (z.raw.len() - r.raw.len())
            &&& forall|k: int| #![trigger z.meta[k]] 0 <= k < r.meta.len() ==> z.meta[k] == r.meta[k]
            &&& forall|k: int|
                #![trigger z.meta[k]]
                r.meta.len() <= k < z.meta.len() ==> z.meta[k] == said[k - r.meta.len()
                    + r.raw.len()].meta
        }),
    decreases said.len(),
{
    if said.len() > 0 {
        let d = said.drop_last();
        let s = said.last();
        let n = said.len() - 1;
        lemma_swept_message(r, now_ns, d);
        let was = r.swept(d);
        let z = r.swept(said);
        assert(said[n] == s);
        assert forall|k: int| #![trigger z.acts[k]] 0 <= k < said.len() implies z.acts[k]
            == said[k].act by {
            if k < n {
                assert(was.acts[k] == d[k].act);
            }
        }
        assert forall|k: int| #![trigger z.raw[k]] 0 <= k < r.raw.len() implies z.raw[k]
            == r.raw[k] by {
            assert(was.raw[k] == r.raw[k]);
        }
        assert forall|k: int| #![trigger z.raw[k]] r.raw.len() <= k < said.len() implies z.raw[k]
            == said[k].meta.node by {
            if k < n {
                assert(was.raw[k] == d[k].meta.node);
            }
        }
        assert forall|k: int| #![trigger z.meta[k]] 0 <= k < r.meta.len() implies z.meta[k]
            == r.meta[k] by {
            assert(was.meta[k] == r.meta[k]);
        }
        assert forall|k: int| #![trigger z.meta[k]] r.meta.len() <= k < z.meta.len() implies z.meta[k]
            == said[k - r.meta.len() + r.raw.len()].meta by {
            if k < was.meta.len() {
                assert(was.meta[k] == d[k - r.meta.len() + r.raw.len()].meta);
            }
        }
        if r.timed {
            assert forall|k: int| #![trigger z.spans[k]] 0 <= k < said.len() implies z.spans[k]
                == elapsed(
                if k == 0 {
                    now_ns
                } else {
                    said[k - 1].exit_ns
                },
                said[k].entry_ns,
            ) by {
                if k < n {
                    assert(was.spans[k] == elapsed(
                        if k == 0 {
                            now_ns
                        } else {
                            d[k - 1].exit_ns
                        },
                        d[k].entry_ns,
                    ));
                } else if n > 0 {
                    assert(d.last() == said[n - 1]);
                }
            }
        }
    }
}

/// A tick is handed over as it was told: at its own time, one act per report in the order of the
/// reports, with the identities that were owed before it and then those of the nodes it is the first to
/// step. One tick in sixty-four is clocked, the first among them, and a clocked one charges each node
/// from the exit of the report before it, or from the opening of the tick, to the entry of its own.
pub proof fn a_tick_is_handed_over_as_told(
    r: RecorderView,
    ts_ns: i64,
    now_ns: u64,
    said: Seq<Said>,
)
    ensures
        ({
            let full = r.opening(ts_ns, now_ns).swept(said);
            let msg = full.message();
            &&& msg.ts_ns == ts_ns
            &&& msg.acts.len() == said.len()
            &&& forall|k: int|
                #![trigger msg.acts[k]]
                0 <= k < said.len() ==> msg.acts[k] == said[k].act
            &&& msg.spans is Some <==> r.opened % 64 == 0
            &&& msg.spans matches Some(xs) ==> xs.len() == said.len() && forall|k: int|
                #![trigger xs[k]]
                0 <= k < said.len() ==> xs[k] == elapsed(
                    if k == 0 {
                        now_ns
                    } else {
                        said[k - 1].exit_ns
                    },
                    said[k].entry_ns,
                )
            &&& msg.meta.len() == r.meta.len() + (if said.len() > r.raw.len() {
                said.len() - r.raw.len()
            } else {
                0
            })
            &&& forall|k: int|
                #![trigger msg.meta[k]]
                0 <= k < r.meta.len() ==> msg.meta[k] == r.meta[k]
            &&& forall|k: int|
                #![trigger msg.meta[k]]
                r.meta.len() <= k < msg.meta.len() ==> msg.meta[k] == said[k - r.meta.len()
                    + r.raw.len()].meta
            &&& full.opened == r.opened + 1
            &&& full.dropped == r.dropped
        }),
{
    lemma_swept_message(r.opening(ts_ns, now_ns), now_ns, said);
}

/// A tick handed over is off the recorder's hands, with the identities it carries; one that came back is
/// counted, and the recorder is as it was before it was handed over. Neither forgets a name.
pub proof fn a_handoff_keeps_the_names(r: RecorderView, msg: MsgView)
    ensures
        r.refused(msg).acts == msg.acts,
        r.refused(msg).idx == msg.acts.len(),
        r.even() ==> r.handed_over().refused(r.message()) == (RecorderView {
            dropped: r.dropped + 1,
            ..r
        }),
        r.handed_over().acts.len() == 0,
        r.handed_over().meta.len() == 0,
        r.handed_over().idx == 0,
        r.handed_over().raw == r.raw,
        r.handed_over().opened == r.opened,
        r.handed_over().dropped == r.dropped,
        r.refused(msg).dropped == r.dropped + 1,
        r.refused(msg).meta == msg.meta,
        r.refused(msg).raw == r.raw,
        r.refused(msg).opened == r.opened,
        r.refused(msg).mode == r.mode,
        r.handed_over().mode == r.mode,
{
}

/// A report is refused for what is wrong with it and for nothing else, the first that holds of: another
/// name in its place than before, a shape with no element, a Jacobian that came back empty, columns past
/// the width of their ends.
pub proof fn a_report_is_refused_for_cause(r: Recorder, node: Seq<char>, f: Fire<'_>)
    requires
        r.wf(),
    ensures
        ({
            let shifted = r.idx < r.raw@.len() && r.raw@[r.idx as int]@ != node;
            let flat = exists|k: int| #![trigger f.dims@[k]] 0 <= k < f.dims@.len() && f.dims@[k] == 0;
            let hollow = f.report.jac is Some && f.report.jac->Some_0@.len() == 0;
            &&& r.refusal(node, f) == Some(Refusal::Shifted) <==> shifted
            &&& r.refusal(node, f) == Some(Refusal::Flat) <==> !shifted && flat
            &&& r.refusal(node, f) == Some(Refusal::EmptyJacobian) <==> !shifted && !flat && hollow
            &&& r.refusal(node, f) == Some(Refusal::Overlong) <==> !shifted && !flat && !hollow
                && !r.acts.room(f.report)
            &&& r.refusal(node, f) is None <==> !shifted && !flat && !hollow && r.acts.room(f.report)
        }),
{
    lemma_volume_is_zero(f.dims@);
    assert(r@.raw.len() == r.raw@.len());
    if r.idx < r.raw@.len() {
        assert(r@.raw[r.idx as int] == r.raw@[r.idx as int]@);
    }
}

/// A shape holds nothing exactly when one of its axes is empty.
pub proof fn lemma_volume_is_zero(dims: Seq<usize>)
    ensures
        crate::replay::volume(dims) == 0 <==> exists|k: int|
            #![trigger dims[k]]
            0 <= k < dims.len() && dims[k] == 0,
    decreases dims.len(),
{
    if dims.len() > 0 {
        let d = dims.drop_last();
        let n = dims.len() - 1;
        lemma_volume_is_zero(d);
        let v = crate::replay::volume(d);
        let x = dims.last() as nat;
        assert(v * x == 0 <==> v == 0 || x == 0) by (nonlinear_arith);
        if v == 0 {
            let k = choose|k: int| #![trigger d[k]] 0 <= k < d.len() && d[k] == 0;
            assert(dims[k] == 0);
        }
        if x == 0 {
            assert(dims[n] == 0);
        }
        if exists|k: int| #![trigger dims[k]] 0 <= k < dims.len() && dims[k] == 0 {
            let k = choose|k: int| #![trigger dims[k]] 0 <= k < dims.len() && dims[k] == 0;
            if k < n {
                assert(d[k] == 0);
            }
        }
    }
}

/// The bits are of a value that is neither infinite nor a NaN.
pub open spec fn is_finite_value(x: Bits) -> bool {
    (x / 0x10_0000_0000_0000) % 0x800 != 0x7ff
}

/// The bits are of a NaN.
pub open spec fn is_nan_value(x: Bits) -> bool {
    (x / 0x10_0000_0000_0000) % 0x800 == 0x7ff && x % 0x10_0000_0000_0000 != 0
}

/// Slot by slot `xs`, a slot empty where its value is not finite.
pub open spec fn shows_finite(s: Seq<Option<Bits>>, xs: Seq<Bits>) -> bool {
    s.len() == xs.len() && forall|k: int|
        #![trigger s[k]]
        0 <= k < xs.len() ==> s[k] == if is_finite_value(xs[k]) {
            Some(xs[k])
        } else {
            None
        }
}

/// Slot by slot `xs`, a slot empty where its value is no number.
pub open spec fn shows_numbers(s: Seq<Option<Bits>>, xs: Seq<Bits>) -> bool {
    s.len() == xs.len() && forall|k: int|
        #![trigger s[k]]
        0 <= k < xs.len() ==> s[k] == if is_nan_value(xs[k]) {
            None
        } else {
            Some(xs[k])
        }
}

/// A value is left out of a card where it is infinite or no number, a weight of a Jacobian only where it
/// is no number; nothing else is left out or moved. A zero is one whatever its sign.
pub proof fn slots_hold_what_can_be_shown(xs: Seq<Bits>, x: Bits)
    ensures
        shows_finite(finite_slots(xs), xs),
        shows_numbers(number_slots(xs), xs),
        finite(x) <==> is_finite_value(x),
        nan(x) <==> is_nan_value(x),
        zero(x) <==> x == 0 || x == 0x8000_0000_0000_0000,
{
}

/// A report is shown as it was made: in the frame of its tick, once that is over, the node is there under
/// its name, fired exactly if the report had values, with the report's flags, its Jacobian however it was
/// reached, its exact columns, and where it fired its rendering and its values.
pub proof fn a_report_is_shown_as_made(
    r: RecorderView,
    t: TapeView,
    ts_ns: i64,
    now_ns: u64,
    said: Seq<Said>,
    i: int,
    f: Report<'_>,
    a: Activation,
)
    requires
        r.dropped <= r.opened,
        t.ok(),
        !t.sealed,
        named(r, t),
        t.opened < 0x1_0000_0000_0000_0000,
        said.len() >= r.raw.len(),
        forall|k: int|
            #![trigger said[k]]
            0 <= k < r.raw.len() ==> said[k].meta.node == r.raw[k],
        0 <= i < said.len(),
        said[i].act == f.act(),
        a.deep_view() == read_back(
            t,
            r.opening(ts_ns, now_ns).swept(said).message(),
        ).activations[i],
    ensures
        a.node@ == shown_name(said[i].meta.node),
        a.fired <==> f.vals is Some && f.vals->Some_0@.len() > 0,
        a.ran == f.ran,
        a.exact == f.exact,
        a.jac is Some <==> f.jac is Some && f.jac->Some_0@.len() > 0,
        a.jac matches Some(s) ==> shows_numbers(s@, f.jac->Some_0@),
        a.exact_block is Some <==> f.exact_block is Some && f.exact_block->Some_0.0@.len() > 0,
        a.exact_block matches Some(b) ==> shows_numbers(b.cols@, f.exact_block->Some_0.0@)
            && b.widths@ == f.exact_block->Some_0.1@,
        a.fired ==> a.out@ == f.glance@ && a.vals is Some && shows_finite(
            a.vals->Some_0@,
            f.vals->Some_0@,
        ),
        a.detail@.len() == 0,
{
    let open = r.opening(ts_ns, now_ns);
    let full = open.swept(said);
    a_sweep_reads_back(r, t, ts_ns, now_ns, said, i);
    a_tick_is_handed_over_as_told(r, ts_ns, now_ns, said);
    a_full_sweep_is_taken(r, t, ts_ns, now_ns, said);
    lemma_swept_message(open, now_ns, said);
    assert(full.acts[i] == said[i].act);
    crate::recorder::lemma_shown(full, t, i);
    if f.jac is Some {
        slots_hold_what_can_be_shown(f.jac->Some_0@, 0);
    }
    if f.vals is Some {
        slots_hold_what_can_be_shown(f.vals->Some_0@, 0);
    }
    if f.exact_block is Some {
        slots_hold_what_can_be_shown(f.exact_block->Some_0.0@, 0);
    }
}

} // verus!
