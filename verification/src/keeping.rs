//! What absorbing a tick preserves, and what a thinning pass leaves.
use vstd::prelude::*;

use crate::api_types::PointView;
use crate::cost::Cost;
use crate::model::{
    absorbed, absorbed_all, blank, bucket, fired, freed, gated, held_tick, kept, landed, noted,
    open_to, open_to_all, retained, rows, settled, stamped, thinned, under, whole, with_nodes, MetaView, MsgView, TapeView, TickView,
};
use crate::names::shown_name;
use crate::rank::{lemma_halvings_u64, FIRST};
use crate::thinning::{backbone, below, claimed, claims, ranked, squeeze_fits};

verus! {

/// Ids ascend.
pub open spec fn climbing(ticks: Seq<TickView>) -> bool {
    forall|p: int, q: int|
        #![trigger ticks[p], ticks[q]]
        0 <= p < q < ticks.len() ==> ticks[p].abs < ticks[q].abs
}

/// The ticks under an id are a prefix.
pub proof fn lemma_under(ticks: Seq<TickView>, c: nat)
    requires
        climbing(ticks),
    ensures
        under(ticks, c) <= ticks.len(),
        forall|p: int| #![trigger ticks[p]] 0 <= p < under(ticks, c) ==> ticks[p].abs < c,
        forall|p: int|
            #![trigger ticks[p]]
            under(ticks, c) <= p < ticks.len() ==> ticks[p].abs >= c,
    decreases ticks.len(),
{
    if ticks.len() > 0 {
        let n = ticks.len() as int;
        if ticks.last().abs < c {
            assert forall|p: int| #![trigger ticks[p]] 0 <= p < n implies ticks[p].abs < c by {
                if p < n - 1 {
                    assert(ticks[p].abs < ticks[n - 1].abs);
                }
            }
        } else {
            let d = ticks.drop_last();
            assert(climbing(d));
            lemma_under(d, c);
            assert forall|p: int| #![trigger ticks[p]] 0 <= p < under(ticks, c) implies ticks[p].abs
                < c by {
                assert(d[p] == ticks[p]);
            }
            assert forall|p: int|
                #![trigger ticks[p]]
                under(ticks, c) <= p < n implies ticks[p].abs >= c by {
                if p < n - 1 {
                    assert(d[p] == ticks[p]);
                }
            }
        }
    }
}

/// Ascending ids are at least as far apart as their positions.
pub proof fn lemma_spread(ticks: Seq<TickView>, p: int, q: int)
    requires
        climbing(ticks),
        0 <= p <= q < ticks.len(),
    ensures
        ticks[q].abs >= ticks[p].abs + (q - p),
    decreases q - p,
{
    if p < q {
        lemma_spread(ticks, p, q - 1);
        assert(ticks[q - 1].abs < ticks[q].abs);
    }
}

/// Naming nodes extends every per-node column and touches nothing else.
pub proof fn lemma_with_nodes(t: TapeView, ms: Seq<MetaView>)
    requires
        t.even(),
    ensures
        with_nodes(t, ms).even(),
        with_nodes(t, ms).nodes() == t.nodes() + ms.len(),
        with_nodes(t, ms) == (TapeView {
            topology: with_nodes(t, ms).topology,
            series: with_nodes(t, ms).series,
            cost: with_nodes(t, ms).cost,
            fires: with_nodes(t, ms).fires,
            keep: with_nodes(t, ms).keep,
            ..t
        }),
        forall|i: int|
            #![trigger with_nodes(t, ms).topology[i]]
            #![trigger with_nodes(t, ms).series[i]]
            #![trigger with_nodes(t, ms).cost[i]]
            #![trigger with_nodes(t, ms).fires[i]]
            #![trigger with_nodes(t, ms).keep[i]]
            0 <= i < t.nodes() ==> with_nodes(t, ms).topology[i] == t.topology[i] && with_nodes(
                t,
                ms,
            ).series[i] == t.series[i] && with_nodes(t, ms).cost[i] == t.cost[i] && with_nodes(
                t,
                ms,
            ).fires[i] == t.fires[i] && with_nodes(t, ms).keep[i] == t.keep[i],
        forall|i: int|
            #![trigger with_nodes(t, ms).topology[i]]
            #![trigger with_nodes(t, ms).series[i]]
            #![trigger with_nodes(t, ms).cost[i]]
            #![trigger with_nodes(t, ms).fires[i]]
            #![trigger with_nodes(t, ms).keep[i]]
            t.nodes() <= i < t.nodes() + ms.len() ==> with_nodes(t, ms).topology[i] == ms[i
                - t.nodes()].topo() && with_nodes(t, ms).series[i] == ms[i - t.nodes()].series()
                && with_nodes(t, ms).cost[i] == Cost::fresh() && with_nodes(t, ms).fires[i] == 0
                && with_nodes(t, ms).keep[i] == 0,
    decreases ms.len(),
{
    if ms.len() > 0 {
        lemma_with_nodes(t, ms.drop_last());
    }
}

/// Stamping keeps points ascending.
pub proof fn lemma_stamped(points: Seq<PointView>, b: int, vals: Seq<u64>)
    requires
        i64::MIN <= b <= i64::MAX,
        forall|x: int, y: int|
            #![trigger points[x], points[y]]
            0 <= x < y < points.len() ==> points[x].ts_ms < points[y].ts_ms,
    ensures
        forall|x: int, y: int|
            #![trigger stamped(points, b, vals)[x], stamped(points, b, vals)[y]]
            0 <= x < y < stamped(points, b, vals).len() ==> stamped(points, b, vals)[x].ts_ms
                < stamped(points, b, vals)[y].ts_ms,
{
    let s = stamped(points, b, vals);
    let n = points.len() as int;
    assert forall|x: int, y: int| #![trigger s[x], s[y]] 0 <= x < y < s.len() implies s[x].ts_ms
        < s[y].ts_ms by {
        if y < n {
            assert(points[x].ts_ms < points[y].ts_ms);
        } else if x < n - 1 {
            assert(points[x].ts_ms < points[n - 1].ts_ms);
        }
    }
}

/// A bucket's start is a timestamp.
pub proof fn lemma_bucket(ts_ns: i64, bucket_ms: i64)
    requires
        bucket_ms > 0,
    ensures
        i64::MIN <= bucket(ts_ns, bucket_ms) <= i64::MAX,
        bucket(ts_ns, bucket_ms) <= crate::model::millis(ts_ns),
{
    let ms = crate::model::millis(ts_ns);
    let b = bucket_ms as int;
    let r = ms % b;
    assert(0 <= r < b);
    if -b <= ms < 0 {
        assert(ms % b == ms + b || ms == -b) by (nonlinear_arith)
            requires
                -b <= ms < 0,
                b > 0,
        ;
    }
}

/// Which of the retained ticks is which, in order.
pub proof fn lemma_kept(ticks: Seq<TickView>, from: nat, keep: Seq<u8>)
    requires
        climbing(ticks),
    ensures
        climbing(kept(ticks, from, keep)),
        kept(ticks, from, keep).len() + freed(ticks, from, keep).len() == ticks.len(),
        forall|k: int|
            #![trigger kept(ticks, from, keep)[k]]
            0 <= k < kept(ticks, from, keep).len() ==> ticks.contains(kept(ticks, from, keep)[k])
                && retained(kept(ticks, from, keep)[k], from, keep),
        forall|p: int|
            #![trigger ticks[p]]
            0 <= p < ticks.len() && retained(ticks[p], from, keep) ==> kept(
                ticks,
                from,
                keep,
            ).contains(ticks[p]),
    decreases ticks.len(),
{
    let r = kept(ticks, from, keep);
    if ticks.len() > 0 {
        let n = ticks.len() as int;
        let d = ticks.drop_last();
        assert(climbing(d));
        lemma_kept(d, from, keep);
        let s = kept(d, from, keep);
        assert forall|k: int| #![trigger r[k]] 0 <= k < r.len() implies ticks.contains(r[k])
            && retained(r[k], from, keep) && (k < s.len() ==> r[k].abs < ticks.last().abs) by {
            if k < s.len() {
                assert(r[k] == s[k]);
                let p = choose|p: int| 0 <= p < d.len() && d[p] == s[k];
                assert(ticks[p] == d[p]);
                assert(ticks[p].abs < ticks[n - 1].abs);
            } else {
                assert(ticks[n - 1] == r[k]);
            }
        }
        assert(climbing(r)) by {
            assert forall|p: int, q: int| #![trigger r[p], r[q]] 0 <= p < q < r.len() implies r[p].abs
                < r[q].abs by {
                if q < s.len() {
                    assert(s[p].abs < s[q].abs);
                }
            }
        }
        assert forall|p: int|
            #![trigger ticks[p]]
            0 <= p < ticks.len() && retained(ticks[p], from, keep) implies r.contains(ticks[p]) by {
            if p < n - 1 {
                assert(d[p] == ticks[p]);
                assert(s.contains(d[p]));
                let k = choose|k: int| 0 <= k < s.len() && s[k] == d[p];
                assert(r[k] == ticks[p]);
            } else {
                assert(r[r.len() - 1] == ticks[p]);
            }
        }
    }
}

/// How many ticks are kept: the backbone among those before the whole stretch, and the stretch.
pub proof fn lemma_kept_len(ticks: Seq<TickView>, from: nat, keep: Seq<u8>)
    requires
        climbing(ticks),
    ensures
        kept(ticks, from, keep).len() == backbone(rows(ticks, under(ticks, from)), keep) + (
        ticks.len() - under(ticks, from)),
    decreases ticks.len(),
{
    if ticks.len() > 0 {
        let n = ticks.len() as int;
        let d = ticks.drop_last();
        assert(climbing(d));
        lemma_kept_len(d, from, keep);
        lemma_under(ticks, from);
        lemma_under(d, from);
        if ticks.last().abs < from {
            assert(ticks[n - 1].abs < from);
            if n > 1 {
                assert(ticks[n - 2].abs < ticks[n - 1].abs);
                assert(d.last() == ticks[n - 2]);
            }
            assert(under(d, from) == d.len());
            let a = rows(ticks, n as nat);
            assert(a.drop_last() =~= rows(d, d.len()));
            assert(a.last() == ticks.last().ranks);
        } else {
            assert(rows(ticks, under(ticks, from)) =~= rows(d, under(d, from)));
        }
    }
}

/// No tick at or past the whole stretch is dropped, so what a pass keeps ends in that stretch.
pub proof fn lemma_kept_tail(ticks: Seq<TickView>, from: nat, keep: Seq<u8>)
    requires
        climbing(ticks),
    ensures
        ({
            let n = under(ticks, from) as int;
            kept(ticks, from, keep) == kept(ticks.take(n), from, keep) + ticks.skip(n)
        }),
    decreases ticks.len(),
{
    let n = under(ticks, from) as int;
    lemma_under(ticks, from);
    if n == ticks.len() {
        assert(ticks.take(n) =~= ticks);
        assert(kept(ticks, from, keep) + ticks.skip(n) =~= kept(ticks, from, keep));
    } else {
        let d = ticks.drop_last();
        assert(climbing(d));
        lemma_kept_tail(d, from, keep);
        assert(ticks[ticks.len() - 1].abs >= from);
        assert(under(d, from) == n);
        assert(d.take(n) =~= ticks.take(n));
        assert(ticks.skip(n) =~= d.skip(n).push(ticks.last()));
        assert((kept(d.take(n), from, keep) + d.skip(n)).push(ticks.last()) =~= kept(
            d.take(n),
            from,
            keep,
        ) + ticks.skip(n));
    }
}

/// The rows a pass squeezes hold ranks.
pub proof fn lemma_rows_ranked(t: TapeView, n: nat)
    requires
        t.sound(),
        n <= t.ticks.len(),
    ensures
        ranked(rows(t.ticks, n)),
{
    let r = rows(t.ticks, n);
    assert forall|p: int, i: int|
        #![trigger r[p][i]]
        0 <= p < r.len() && 0 <= i < r[p].len() implies r[p][i] <= FIRST by {
        assert(t.ticks[p].ok(t.nodes()));
        assert(t.ticks[p].ranks[i] <= FIRST);
    }
}

/// A thinning pass leaves at least a quarter of the buffer free, whatever it found there, and what it
/// keeps of the ticks before the whole stretch fits a quarter of the buffer.
pub proof fn a_pass_leaves_a_quarter_free(t: TapeView)
    requires
        t.sound(),
    ensures
        thinned(t).ticks.len() <= t.capacity / 4 + t.capacity / 2,
        thinned(t).ticks.len() + t.capacity / 4 <= t.capacity,
        backbone(rows(t.ticks, under(t.ticks, whole(t))), settled(t)) <= t.capacity / 4,
{
    let w = whole(t);
    let n = under(t.ticks, w);
    lemma_under(t.ticks, w);
    lemma_rows_ranked(t, n);
    squeeze_fits(rows(t.ticks, n), t.keep, t.capacity / 4);
    lemma_kept_len(t.ticks, w, settled(t));
    if n < t.ticks.len() {
        let last = t.ticks.len() - 1;
        lemma_spread(t.ticks, n as int, last);
        assert(t.ticks[n as int].abs >= w);
    }
}

/// A pass only raises exponents.
pub proof fn exponents_only_rise(t: TapeView)
    requires
        t.sound(),
    ensures
        below(t.keep, thinned(t).keep),
        forall|i: int|
            #![trigger thinned(t).keep[i]]
            0 <= i < t.keep.len() ==> thinned(t).keep[i] <= FIRST,
{
    lemma_under(t.ticks, whole(t));
    lemma_rows_ranked(t, under(t.ticks, whole(t)));
    squeeze_fits(rows(t.ticks, under(t.ticks, whole(t))), t.keep, t.capacity / 4);
}

/// A pass that fits already raises nothing: while what the exponents claim of the ticks before the
/// whole stretch is at most a quarter of the buffer, they stay as they are.
pub proof fn a_pass_that_fits_raises_nothing(t: TapeView)
    requires
        backbone(rows(t.ticks, under(t.ticks, whole(t))), t.keep) <= t.capacity / 4,
    ensures
        thinned(t).keep == t.keep,
        thinned(t).ticks == kept(t.ticks, whole(t), t.keep),
{
}

/// A pass leaves a tape with room on it.
pub proof fn lemma_thinned_ok(t: TapeView)
    requires
        t.sound(),
    ensures
        thinned(t).sound(),
        thinned(t).ok(),
{
    let r = thinned(t);
    a_pass_leaves_a_quarter_free(t);
    exponents_only_rise(t);
    lemma_kept(t.ticks, whole(t), settled(t));
    assert forall|p: int| #![trigger r.ticks[p]] 0 <= p < r.ticks.len() implies r.ticks[p].ok(
        r.nodes(),
    ) by {
        let q = choose|q: int| 0 <= q < t.ticks.len() && t.ticks[q] == r.ticks[p];
        assert(t.ticks[q].ok(t.nodes()));
    }
    if t.ticks.len() > 0 {
        let last = t.ticks.len() - 1;
        assert(retained(t.ticks[last], whole(t), settled(t)));
        assert(r.ticks.contains(t.ticks[last]));
        assert(kept(t.ticks, whole(t), settled(t)).last() == t.ticks.last());
    }
    assert(r.ordered());
    assert(r.paired()) by {
        if t.opened >= 2 {
            let w = whole(t);
            let n = under(t.ticks, w) as int;
            let len = t.ticks.len() as int;
            lemma_under(t.ticks, w);
            lemma_kept_tail(t.ticks, w, settled(t));
            assert(t.ticks[len - 2].abs >= w);
            assert(n <= len - 2);
            let head = kept(t.ticks.take(n), w, settled(t));
            assert(r.ticks[r.ticks.len() - 2] == t.ticks[len - 2]);
        }
    }
}

/// Naming and charting leave a tape.
pub proof fn lemma_noted_ok(t: TapeView, msg: MsgView)
    requires
        t.ok(),
        open_to(t, msg),
    ensures
        with_nodes(t, msg.meta).ok(),
        noted(t, msg).even(),
        noted(t, msg).ascending(),
        forall|i: int|
            #![trigger noted(t, msg).fires[i]]
            0 <= i < noted(t, msg).fires.len() ==> noted(t, msg).fires[i] <= t.opened + 1,
        forall|i: int|
            #![trigger noted(t, msg).cost[i]]
            0 <= i < noted(t, msg).cost.len() ==> noted(t, msg).cost[i].wf(),
        ({
            let a = with_nodes(t, msg.meta);
            &&& noted(t, msg).nodes() == a.nodes()
            &&& noted(t, msg).ticks == t.ticks
            &&& noted(t, msg).keep == a.keep
            &&& noted(t, msg).opened == t.opened
            &&& noted(t, msg).capacity == t.capacity
            &&& noted(t, msg).bucket_ms == t.bucket_ms
        }),
{
    let a = with_nodes(t, msg.meta);
    let n = noted(t, msg);
    lemma_with_nodes(t, msg.meta);
    assert(a.ok()) by {
        assert forall|i: int| #![trigger a.keep[i]] 0 <= i < a.keep.len() implies a.keep[i]
            <= FIRST by {
            if i < t.nodes() {
                assert(t.keep[i] <= FIRST);
            }
        }
        assert forall|i: int| #![trigger a.fires[i]] 0 <= i < a.fires.len() implies a.fires[i]
            <= a.opened by {
            if i < t.nodes() {
                assert(t.fires[i] <= t.opened);
            }
        }
        assert forall|i: int| #![trigger a.cost[i]] 0 <= i < a.cost.len() implies a.cost[i].wf() by {
            if i < t.nodes() {
                assert(t.cost[i].wf());
            }
        }
        assert forall|p: int| #![trigger a.ticks[p]] 0 <= p < a.ticks.len() implies a.ticks[p].ok(
            a.nodes(),
        ) by {
            assert(t.ticks[p].ok(t.nodes()));
        }
        assert forall|i: int, x: int, y: int|
            #![trigger a.series[i].points[x], a.series[i].points[y]]
            0 <= i < a.series.len() && 0 <= x < y < a.series[i].points.len() implies a.series[i].points[x].ts_ms
            < a.series[i].points[y].ts_ms by {
            if i < t.nodes() {
                assert(t.series[i].points[x].ts_ms < t.series[i].points[y].ts_ms);
            }
        }
        assert(a.ordered());
    }
    lemma_bucket(msg.ts_ns, t.bucket_ms);
    let b = bucket(msg.ts_ns, t.bucket_ms);
    assert forall|i: int, x: int, y: int|
        #![trigger n.series[i].points[x], n.series[i].points[y]]
        0 <= i < n.series.len() && 0 <= x < y < n.series[i].points.len() implies n.series[i].points[x].ts_ms
        < n.series[i].points[y].ts_ms by {
        let ps = a.series[i].points;
        assert forall|u: int, v: int| #![trigger ps[u], ps[v]] 0 <= u < v < ps.len() implies ps[u].ts_ms
            < ps[v].ts_ms by {
            assert(a.series[i].points[u].ts_ms < a.series[i].points[v].ts_ms);
        }
        if fired(msg.acts, i) {
            lemma_stamped(ps, b, msg.acts[i].vals->Some_0);
        }
    }
    assert forall|i: int| #![trigger n.fires[i]] 0 <= i < n.fires.len() implies n.fires[i]
        <= t.opened + 1 by {
        assert(a.fires[i] <= a.opened);
    }
    assert forall|i: int| #![trigger n.cost[i]] 0 <= i < n.cost.len() implies n.cost[i].wf() by {
        assert(a.cost[i].wf());
    }
}

/// The tick that lands has ranks, and they say who fired.
pub proof fn lemma_held_tick_ok(t: TapeView, msg: MsgView)
    requires
        t.ok(),
        open_to(t, msg),
        t.opened < 0x1_0000_0000_0000_0000,
    ensures
        held_tick(t, msg).ok(noted(t, msg).nodes()),
        held_tick(t, msg).ranks.len() == noted(t, msg).nodes(),
{
    let a = with_nodes(t, msg.meta);
    lemma_noted_ok(t, msg);
    lemma_with_nodes(t, msg.meta);
    let h = held_tick(t, msg);
    assert forall|i: int| #![trigger h.ranks[i]] 0 <= i < h.ranks.len() implies h.ranks[i] <= FIRST
        && (h.ranks[i] > 0 <==> fired(h.acts, i)) by {
        if fired(msg.acts, i) {
            assert(a.fires[i] <= a.opened);
            lemma_halvings_u64(a.fires[i]);
        }
    }
}

/// A tick that landed leaves a tape, though the buffer may be full.
pub proof fn lemma_landed_sound(t: TapeView, msg: MsgView)
    requires
        t.ok(),
        open_to(t, msg),
        t.opened < 0x1_0000_0000_0000_0000,
    ensures
        landed(t, msg).sound(),
        landed(t, msg).nodes() == with_nodes(t, msg.meta).nodes(),
        landed(t, msg).keep == with_nodes(t, msg.meta).keep,
        landed(t, msg).capacity == t.capacity,
        !landed(t, msg).sealed,
{
    let a = with_nodes(t, msg.meta);
    let n = noted(t, msg);
    let z = landed(t, msg);
    let last = t.ticks.len() - 1;
    lemma_noted_ok(t, msg);
    lemma_held_tick_ok(t, msg);
    lemma_with_nodes(t, msg.meta);
    assert(z.ordered()) by {
        assert(t.ordered());
        assert forall|x: int, y: int|
            #![trigger z.ticks[x], z.ticks[y]]
            0 <= x < y < z.ticks.len() implies z.ticks[x].abs < z.ticks[y].abs by {
            if y <= last {
                assert(t.ticks[x].abs < t.ticks[y].abs);
            } else if x < last {
                assert(t.ticks[x].abs < t.ticks[last].abs);
            }
        }
    }
    assert(z.paired()) by {
        assert(t.ordered());
        if z.opened >= 2 {
            assert(z.ticks[z.ticks.len() - 2] == t.ticks[last]);
        }
    }
    assert forall|p: int| #![trigger z.ticks[p]] 0 <= p < z.ticks.len() implies z.ticks[p].ok(
        z.nodes(),
    ) by {
        if p <= last {
            assert(a.ticks[p].ok(a.nodes()));
        }
    }
    assert forall|i: int| #![trigger z.keep[i]] 0 <= i < z.keep.len() implies z.keep[i] <= FIRST by {
        assert(a.keep[i] <= FIRST);
    }
    assert forall|i: int| #![trigger z.fires[i]] 0 <= i < z.fires.len() implies z.fires[i]
        <= z.opened by {
        assert(n.fires[i] <= t.opened + 1);
    }
    assert forall|i: int| #![trigger z.cost[i]] 0 <= i < z.cost.len() implies z.cost[i].wf() by {
        assert(n.cost[i].wf());
    }
    assert forall|i: int, x: int, y: int|
        #![trigger z.series[i].points[x], z.series[i].points[y]]
        0 <= i < z.series.len() && 0 <= x < y < z.series[i].points.len() implies z.series[i].points[x].ts_ms
        < z.series[i].points[y].ts_ms by {
        assert(n.series[i].points[x].ts_ms < n.series[i].points[y].ts_ms);
    }
}

/// Absorbing a tick leaves a tape, and the buffer is not full: the pass is made as soon as it is.
pub proof fn absorbing_keeps_a_tape(t: TapeView, msg: MsgView)
    requires
        t.ok(),
        open_to(t, msg),
        t.opened < 0x1_0000_0000_0000_0000,
    ensures
        absorbed(t, msg).ok(),
        absorbed(t, msg).ticks.len() < t.capacity,
        !absorbed(t, msg).sealed,
        absorbed(t, msg).opened == t.opened + 1,
{
    lemma_landed_sound(t, msg);
    if landed(t, msg).ticks.len() == t.capacity {
        lemma_thinned_ok(landed(t, msg));
    }
}

proof fn lemma_gated_within(deps: Seq<Seq<char>>, gates: Seq<bool>, n: nat, g: Seq<char>)
    requires
        n <= deps.len(),
        gated(deps, gates, n).contains(g),
    ensures
        exists|k: int| 0 <= k < n && gates[k] && g == #[trigger] shown_name(deps[k]),
    decreases n,
{
    let r = gated(deps, gates, (n - 1) as nat);
    let all = gated(deps, gates, n);
    let j = choose|j: int| 0 <= j < all.len() && all[j] == g;
    if j < r.len() {
        assert(r[j] == g);
        lemma_gated_within(deps, gates, (n - 1) as nat, g);
    } else {
        assert(g == shown_name(deps[n - 1]));
    }
}

/// On the wire a node's gates are among its dependencies: exactly those flagged as control edges.
pub proof fn gates_are_among_the_deps(m: MetaView, g: Seq<char>)
    requires
        m.topo().gates.contains(g),
    ensures
        m.topo().deps.contains(g),
        m.series().gates == m.topo().gates,
        m.series().deps == m.topo().deps,
{
    lemma_gated_within(m.deps, m.gates, m.flagged(), g);
    let k = choose|k: int|
        0 <= k < m.flagged() && m.gates[k] && g == #[trigger] shown_name(m.deps[k]);
    assert(m.topo().deps[k] == g);
}

/// A node's series is never cut: absorbing a tick leaves all its points but the newest as they are,
/// and where the node fired the newest holds what it fired with.
pub proof fn a_series_only_grows(t: TapeView, msg: MsgView, i: int)
    requires
        t.ok(),
        open_to(t, msg),
        0 <= i < t.nodes(),
    ensures
        ({
            let was = t.series[i].points;
            let now = absorbed(t, msg).series[i].points;
            &&& was.len() <= now.len() <= was.len() + 1
            &&& forall|k: int| #![trigger now[k]] 0 <= k < was.len() - 1 ==> now[k] == was[k]
            &&& !fired(msg.acts, i) ==> now == was
            &&& fired(msg.acts, i) ==> now.len() > 0 && Some(now.last().vals)
                == msg.acts[i].vals
        }),
{
    lemma_with_nodes(t, msg.meta);
}

/// Every point of every series is stamped with the start of a bucket.
pub open spec fn on_buckets(t: TapeView) -> bool {
    forall|i: int, k: int|
        #![trigger t.series[i].points[k]]
        0 <= i < t.series.len() && 0 <= k < t.series[i].points.len()
            ==> t.series[i].points[k].ts_ms as int % t.bucket_ms as int == 0
}

/// A bucket starts at a multiple of its width.
proof fn lemma_bucket_start(ts_ns: i64, bucket_ms: i64)
    requires
        bucket_ms > 0,
    ensures
        bucket(ts_ns, bucket_ms) % bucket_ms as int == 0,
{
    let ms = crate::model::millis(ts_ns);
    let b = bucket_ms as int;
    assert((ms - ms % b) % b == 0) by (nonlinear_arith)
        requires
            b > 0,
    ;
}

/// Stamps stay on bucket starts whatever is absorbed.
pub proof fn stamps_start_buckets(t: TapeView, msg: MsgView)
    requires
        t.ok(),
        on_buckets(t),
        open_to(t, msg),
    ensures
        on_buckets(absorbed(t, msg)),
{
    let a = with_nodes(t, msg.meta);
    let z = absorbed(t, msg);
    let b = bucket(msg.ts_ns, t.bucket_ms);
    lemma_with_nodes(t, msg.meta);
    lemma_bucket(msg.ts_ns, t.bucket_ms);
    lemma_bucket_start(msg.ts_ns, t.bucket_ms);
    assert forall|i: int, k: int|
        #![trigger z.series[i].points[k]]
        0 <= i < z.series.len() && 0 <= k < z.series[i].points.len() implies z.series[i].points[k].ts_ms as int
        % z.bucket_ms as int == 0 by {
        let was = a.series[i].points;
        if i < t.nodes() && k < was.len() {
            assert(t.series[i].points[k].ts_ms as int % t.bucket_ms as int == 0);
        }
    }
}

/// Every point of a recording is stamped with the start of the bucket its values fell in, or of a later
/// one already begun: never with anything but a multiple of the sample period.
pub proof fn every_stamp_starts_a_bucket(
    price_node: Option<Seq<char>>,
    capacity: nat,
    bucket_ms: i64,
    msgs: Seq<MsgView>,
)
    requires
        capacity > 3,
        bucket_ms > 0,
        open_to_all(blank(price_node, capacity, bucket_ms), msgs),
        msgs.len() < 0x1_0000_0000_0000_0000,
    ensures
        on_buckets(absorbed_all(blank(price_node, capacity, bucket_ms), msgs)),
        absorbed_all(blank(price_node, capacity, bucket_ms), msgs).bucket_ms == bucket_ms,
        absorbed_all(blank(price_node, capacity, bucket_ms), msgs).ok(),
        absorbed_all(blank(price_node, capacity, bucket_ms), msgs).opened == msgs.len(),
    decreases msgs.len(),
{
    if msgs.len() > 0 {
        let d = msgs.drop_last();
        every_stamp_starts_a_bucket(price_node, capacity, bucket_ms, d);
        let u = absorbed_all(blank(price_node, capacity, bucket_ms), d);
        stamps_start_buckets(u, msgs.last());
        absorbing_keeps_a_tape(u, msgs.last());
        lemma_with_nodes(u, msgs.last().meta);
    }
}

/// A row kept at higher exponents is kept at lower ones: what one pass keeps of the past is a part of
/// what the passes before it kept.
pub proof fn what_passes_keep_nests(row: Seq<u8>, lo: Seq<u8>, hi: Seq<u8>)
    requires
        below(lo, hi),
        claimed(row, hi),
    ensures
        claimed(row, lo),
{
    let i = choose|i: int| claims(row, hi, i);
    assert(lo[i] <= hi[i]);
    assert(claims(row, lo, i));
}

} // verus!
