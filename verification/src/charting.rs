//! The laws of absorbing: what each tick adds to the tape, what it leaves alone, what a pass takes away,
//! and what is charted and written down of it all.
use vstd::prelude::*;

use crate::api_types::{PointView, SeriesView};
use crate::cost::Cost;
use crate::file::{header_error, FileError};
use crate::keeping::{climbing, lemma_bucket, lemma_kept, lemma_landed_sound, lemma_with_nodes};
use crate::model::{
    absorb_closed, absorb_freed, absorbed, batch_width, blank, bucket, closed_blocks, fired, freed,
    landed, open_to, retained, rows, settled, stamped, under, whole, with_nodes, MsgView, TapeView,
    TickView,
};
use crate::rank::rank;
use crate::replay::{panes, series_first, volume, PriceFault};
use crate::searching::reachable;
use crate::tape::Footprint;
use crate::thinning::{backbone, greediest, lemma_greediest, share, shares, squeezed};

verus! {

/// How many of the first `n` series are of no buffer.
pub open spec fn charted_before(series: Seq<SeriesView>, n: nat) -> nat
    decreases n,
{
    if n == 0 {
        0
    } else {
        charted_before(series, (n - 1) as nat) + if "Buffer<"@.is_prefix_of(series[n - 1].node) {
            0nat
        } else {
            1nat
        }
    }
}

/// `shown` are the series of `all` but for those of buffers, unchanged and in their order.
pub open spec fn charts_all_but_buffers(shown: Seq<SeriesView>, all: Seq<SeriesView>) -> bool {
    &&& shown.len() == charted_before(all, all.len())
    &&& forall|k: int|
        #![trigger all[k]]
        0 <= k < all.len() && !"Buffer<"@.is_prefix_of(all[k].node) ==> charted_before(all, k as nat)
            < shown.len() && shown[charted_before(all, k as nat) as int] == all[k]
    &&& forall|m: int|
        #![trigger shown[m]]
        0 <= m < shown.len() ==> !"Buffer<"@.is_prefix_of(shown[m].node)
}

proof fn lemma_charted_grows(series: Seq<SeriesView>, a: nat, b: nat)
    requires
        a <= b,
    ensures
        charted_before(series, a) <= charted_before(series, b),
    decreases b - a,
{
    if a < b {
        lemma_charted_grows(series, a, (b - 1) as nat);
    }
}

proof fn lemma_charted_same(a: Seq<SeriesView>, b: Seq<SeriesView>, n: nat)
    requires
        n <= a.len(),
        n <= b.len(),
        forall|k: int| #![trigger a[k]] 0 <= k < n ==> a[k] == b[k],
    ensures
        charted_before(a, n) == charted_before(b, n),
    decreases n,
{
    if n > 0 {
        lemma_charted_same(a, b, (n - 1) as nat);
        assert(a[n - 1] == b[n - 1]);
    }
}

proof fn lemma_panes(all: Seq<SeriesView>)
    ensures
        charts_all_but_buffers(panes(all), all),
    decreases all.len(),
{
    if all.len() > 0 {
        let d = all.drop_last();
        let n = all.len() - 1;
        lemma_panes(d);
        lemma_charted_same(d, all, n as nat);
        let shown = panes(all);
        assert forall|k: int|
            #![trigger all[k]]
            0 <= k < all.len() && !"Buffer<"@.is_prefix_of(all[k].node) implies charted_before(
            all,
            k as nat,
        ) < shown.len() && shown[charted_before(all, k as nat) as int] == all[k] by {
            if k < n {
                assert(d[k] == all[k]);
                lemma_charted_same(d, all, k as nat);
            }
        }
        assert forall|m: int| #![trigger shown[m]] 0 <= m < shown.len() implies !"Buffer<"@.is_prefix_of(
            shown[m].node,
        ) by {
            if m < panes(d).len() {
                assert(shown[m] == panes(d)[m]);
            }
        }
    }
}

/// The chart shows every node's series as it is on the tape and in the order of the graph, and leaves out
/// those of buffers alone, whatever else a node has; it names the price node the tape was made with.
pub proof fn a_day_charts_all_but_the_buffers(t: TapeView)
    ensures
        charts_all_but_buffers(t.day_view().series, t.series),
        t.day_view().price_node == t.price_node,
{
    lemma_panes(t.series);
}

/// A series is charted whatever it holds: two tapes whose series have the same names chart the same
/// places.
pub proof fn what_is_charted_goes_by_name(a: TapeView, b: TapeView)
    requires
        a.series.len() == b.series.len(),
        forall|k: int| #![trigger a.series[k]] 0 <= k < a.series.len() ==> a.series[k].node
            == b.series[k].node,
    ensures
        a.day_view().series.len() == b.day_view().series.len(),
        forall|m: int|
            #![trigger a.day_view().series[m]]
            0 <= m < a.day_view().series.len() ==> a.day_view().series[m].node
                == b.day_view().series[m].node,
{
    lemma_same_panes(a.series, b.series);
}

proof fn lemma_same_panes(a: Seq<SeriesView>, b: Seq<SeriesView>)
    requires
        a.len() == b.len(),
        forall|k: int| #![trigger a[k]] 0 <= k < a.len() ==> a[k].node == b[k].node,
    ensures
        panes(a).len() == panes(b).len(),
        forall|m: int| #![trigger panes(a)[m]] 0 <= m < panes(a).len() ==> panes(a)[m].node == panes(
            b,
        )[m].node,
    decreases a.len(),
{
    if a.len() > 0 {
        let n = a.len() - 1;
        assert(a[n].node == b[n].node);
        assert forall|k: int| #![trigger a.drop_last()[k]] 0 <= k < n implies a.drop_last()[k].node
            == b.drop_last()[k].node by {
            assert(a[k].node == b[k].node);
        }
        lemma_same_panes(a.drop_last(), b.drop_last());
        assert forall|m: int| #![trigger panes(a)[m]] 0 <= m < panes(a).len() implies panes(a)[m].node
            == panes(b)[m].node by {
            if m < panes(a.drop_last()).len() {
                assert(panes(a.drop_last())[m].node == panes(b.drop_last())[m].node);
            }
        }
    }
}

/// The product of a shape, axis by axis.
pub open spec fn product(dims: Seq<usize>) -> nat
    decreases dims.len(),
{
    if dims.len() == 0 {
        1
    } else {
        dims[0] as nat * product(dims.drop_first())
    }
}

proof fn lemma_product_push(dims: Seq<usize>, x: usize)
    ensures
        product(dims.push(x)) == product(dims) * (x as nat),
    decreases dims.len(),
{
    if dims.len() > 0 {
        let d = dims.drop_first();
        lemma_product_push(d, x);
        assert(dims.push(x).drop_first() =~= d.push(x));
        let a = dims[0] as nat;
        let b = product(d);
        let c = x as nat;
        assert(product(dims.push(x)) == a * (b * c));
        assert(product(dims) == a * b);
        assert(a * (b * c) == (a * b) * c) by (nonlinear_arith);
    } else {
        let c = x as nat;
        assert(dims.push(x).drop_first() =~= Seq::<usize>::empty());
        assert(product(Seq::<usize>::empty()) == 1);
        assert(product(dims.push(x)) == c * 1);
        assert(product(dims) == 1);
        assert(c * 1 == 1 * c) by (nonlinear_arith);
    }
}

/// A shape holds as many elements as its axes multiply to.
pub proof fn a_shape_holds_its_product(dims: Seq<usize>)
    ensures
        volume(dims) == product(dims),
    decreases dims.len(),
{
    if dims.len() > 0 {
        a_shape_holds_its_product(dims.drop_last());
        lemma_product_push(dims.drop_last(), dims.last());
        assert(dims.drop_last().push(dims.last()) =~= dims);
    }
}

proof fn lemma_series_first(series: Seq<SeriesView>, node: Seq<char>, from: nat)
    requires
        from <= series.len(),
    ensures
        match series_first(series, node, from) {
            Some(i) => from <= i < series.len() && series[i as int].node == node && forall|j: int|
                #![trigger series[j]]
                from <= j < i ==> series[j].node != node,
            None => forall|j: int|
                #![trigger series[j]]
                from <= j < series.len() ==> series[j].node != node,
        },
    decreases series.len() - from,
{
    if from < series.len() && series[from as int].node != node {
        lemma_series_first(series, node, from + 1);
    }
}

/// The price node is at fault for two things only: the first series of its name has other than five
/// elements, or there is none of its name though a tick is addressable.
pub proof fn a_price_node_is_a_bar_of_the_graph(t: TapeView, k: int)
    requires
        t.price_node is Some,
    ensures
        (forall|j: int|
            #![trigger t.series[j]]
            0 <= j < t.series.len() ==> t.series[j].node != t.price_node->Some_0) ==> (
        t.price_fault() == if t.frame().total < 1 {
            None::<PriceFault>
        } else {
            Some(PriceFault::Unknown)
        }),
        0 <= k < t.series.len() && t.series[k].node == t.price_node->Some_0 && (forall|j: int|
            #![trigger t.series[j]]
            0 <= j < k ==> t.series[j].node != t.price_node->Some_0) ==> (t.price_fault() == if product(
            t.series[k].dims,
        ) == 5 {
            None::<PriceFault>
        } else {
            Some(PriceFault::NotABar)
        }),
{
    let p = t.price_node->Some_0;
    lemma_series_first(t.series, p, 0);
    match series_first(t.series, p, 0) {
        Some(i) => {
            a_shape_holds_its_product(t.series[i as int].dims);
            if 0 <= k < t.series.len() && t.series[k].node == p {
                if i < k {
                    assert(t.series[i as int].node == p);
                }
                if k < i {
                    assert(t.series[k].node != p);
                }
            }
        },
        None => {
            if 0 <= k < t.series.len() {
                assert(t.series[k].node != p);
            }
        },
    }
}

/// A tape without a price node has nothing wrong with it.
pub proof fn no_price_node_is_no_fault(t: TapeView)
    requires
        t.price_node is None,
    ensures
        t.price_fault() is None,
{
}

/// Milliseconds of a time in nanoseconds, the fraction cut off.
pub open spec fn in_millis(ts_ns: i64, ms: int) -> bool {
    if ts_ns >= 0 {
        ms * 1_000_000 <= ts_ns < (ms + 1) * 1_000_000
    } else {
        (ms - 1) * 1_000_000 < ts_ns <= ms * 1_000_000
    }
}

/// `b` starts the bucket the time falls in.
pub open spec fn starts_bucket(b: int, ts_ns: i64, bucket_ms: i64) -> bool {
    exists|ms: int| #[trigger] in_millis(ts_ns, ms) && b <= ms < b + bucket_ms && b % (
    bucket_ms as int) == 0
}

pub proof fn lemma_starts_bucket(ts_ns: i64, bucket_ms: i64)
    requires
        bucket_ms > 0,
    ensures
        starts_bucket(bucket(ts_ns, bucket_ms), ts_ns, bucket_ms),
        i64::MIN <= bucket(ts_ns, bucket_ms) <= i64::MAX,
{
    let ms = crate::model::millis(ts_ns);
    let w = bucket_ms as int;
    lemma_bucket(ts_ns, bucket_ms);
    assert(in_millis(ts_ns, ms));
    assert((ms - ms % w) % w == 0) by (nonlinear_arith)
        requires
            w > 0,
    ;
}

/// A fire is charted in the bucket its tick fell in: the newest point takes its values where it is not
/// older than that bucket, a new point where it is; nothing before it is touched. A quiet node's points
/// stay as they are.
pub proof fn a_fire_is_charted_in_its_bucket(t: TapeView, msg: MsgView, i: int)
    requires
        t.ok(),
        open_to(t, msg),
        t.opened < 0x1_0000_0000_0000_0000,
        0 <= i < t.series.len() + msg.meta.len(),
    ensures
        ({
            let was = if i < t.series.len() {
                t.series[i].points
            } else {
                Seq::<PointView>::empty()
            };
            let now = absorbed(t, msg).series[i].points;
            let fires = i < msg.acts.len() && msg.acts[i].vals is Some;
            &&& absorbed(t, msg).series.len() == t.series.len() + msg.meta.len()
            &&& !fires ==> now == was
            &&& fires ==> exists|b: int|
                {
                    &&& #[trigger] starts_bucket(b, msg.ts_ns, t.bucket_ms)
                    &&& now.len() > 0
                    &&& now.last().vals == msg.acts[i].vals->Some_0
                    &&& now.last().detail.len() == 0
                    &&& if was.len() > 0 && was.last().ts_ms >= b {
                        now.len() == was.len() && now.last().ts_ms == was.last().ts_ms
                            && now.drop_last() == was.drop_last()
                    } else {
                        now.len() == was.len() + 1 && now.last().ts_ms == b && now.drop_last() == was
                    }
                }
        }),
{
    lemma_with_nodes(t, msg.meta);
    lemma_starts_bucket(msg.ts_ns, t.bucket_ms);
    let a = with_nodes(t, msg.meta);
    let was = if i < t.series.len() {
        t.series[i].points
    } else {
        Seq::<PointView>::empty()
    };
    assert(a.series[i].points =~= was);
    let now = absorbed(t, msg).series[i].points;
    if i < msg.acts.len() && msg.acts[i].vals is Some {
        let b = bucket(msg.ts_ns, t.bucket_ms);
        assert(now == stamped(was, b, msg.acts[i].vals->Some_0));
        if was.len() > 0 && was.last().ts_ms >= b {
            assert(now.drop_last() =~= was.drop_last());
        } else {
            assert(now.drop_last() =~= was);
        }
    }
}

/// Absorbing counts: one more tick opened, one more fire for each node that fired, and nothing else of
/// the tape's own settings, its drop tally or its cursor moves. The tick itself is held as it came,
/// newest, under the next number.
pub proof fn absorbing_counts_the_tick(t: TapeView, msg: MsgView, i: int)
    requires
        t.ok(),
        open_to(t, msg),
        t.opened < 0x1_0000_0000_0000_0000,
    ensures
        ({
            let z = absorbed(t, msg);
            let n = z.ticks.len() - 1;
            &&& z.opened == t.opened + 1
            &&& z.capacity == t.capacity
            &&& z.bucket_ms == t.bucket_ms
            &&& z.price_node == t.price_node
            &&& z.sealed == t.sealed
            &&& z.dropped == t.dropped
            &&& z.cursor == t.cursor
            &&& n >= 0
            &&& z.ticks[n].abs == t.opened
            &&& z.ticks[n].ts_ns == msg.ts_ns
            &&& z.ticks[n].acts == msg.acts
            &&& z.ticks[n].ranks.len() == t.topology.len() + msg.meta.len()
            &&& z.topology.len() == t.topology.len() + msg.meta.len()
            &&& 0 <= i < t.topology.len() + msg.meta.len() ==> {
                let before = if i < t.topology.len() {
                    t.fires[i]
                } else {
                    0
                };
                if i < msg.acts.len() && msg.acts[i].vals is Some {
                    z.fires[i] == before + 1 && z.ticks[n].ranks[i] == rank(before)
                } else {
                    z.fires[i] == before && z.ticks[n].ranks[i] == 0
                }
            }
        }),
{
    lemma_with_nodes(t, msg.meta);
    crate::retention::lemma_newest_held(t, msg);
    crate::keeping::lemma_noted_ok(t, msg);
    lemma_landed_sound(t, msg);
    let a = with_nodes(t, msg.meta);
    if 0 <= i < t.topology.len() + msg.meta.len() {
        assert(a.fires[i] <= a.opened);
        crate::rank::lemma_halvings_u64(a.fires[i]);
    }
}

/// A tick that does not fill the buffer is added and takes nothing away.
pub proof fn a_tick_with_room_takes_nothing_away(t: TapeView, msg: MsgView)
    requires
        t.ok(),
        open_to(t, msg),
        t.opened < 0x1_0000_0000_0000_0000,
        t.ticks.len() + 1 < t.capacity,
    ensures
        absorbed(t, msg).ticks.drop_last() == t.ticks,
        absorbed(t, msg).ticks.len() == t.ticks.len() + 1,
        absorb_freed(t, msg).len() == 0,
        forall|i: int|
            #![trigger t.keep[i]]
            0 <= i < t.keep.len() ==> absorbed(t, msg).keep[i] == t.keep[i],
{
    lemma_with_nodes(t, msg.meta);
    assert(absorbed(t, msg).ticks.drop_last() =~= t.ticks);
}

/// Some node fired on the tick at a rank above its exponent.
pub open spec fn outranks(k: TickView, keep: Seq<u8>) -> bool {
    exists|i: int|
        #![trigger k.ranks[i]]
        0 <= i < k.ranks.len() && i < keep.len() && k.ranks[i] > keep[i]
}

/// The tick that fills the buffer makes a pass. What was held stays, in order, exactly where it is of the
/// newest half of the buffer or some node fired on it at a rank above the exponent the pass settled on;
/// the rest is freed.
pub proof fn a_pass_keeps_the_new_and_the_outranking(t: TapeView, msg: MsgView)
    requires
        t.ok(),
        open_to(t, msg),
        t.opened < 0x1_0000_0000_0000_0000,
        t.ticks.len() + 1 == t.capacity,
    ensures
        ({
            let z = absorbed(t, msg);
            let half = (t.capacity / 2) as int;
            &&& forall|p: int|
                #![trigger t.ticks[p]]
                0 <= p < t.ticks.len() ==> (z.ticks.contains(t.ticks[p]) <==> t.ticks[p].abs
                    >= t.opened + 1 - half || outranks(t.ticks[p], z.keep))
            &&& forall|q: int|
                #![trigger z.ticks[q]]
                0 <= q < z.ticks.len() - 1 ==> t.ticks.contains(z.ticks[q])
            &&& climbing(z.ticks)
            &&& z.ticks.len() + absorb_freed(t, msg).len() == t.capacity
        }),
{
    let l = landed(t, msg);
    let z = absorbed(t, msg);
    lemma_with_nodes(t, msg.meta);
    lemma_landed_sound(t, msg);
    crate::retention::lemma_newest_held(t, msg);
    assert(l.ordered());
    let w = whole(l);
    let keep = settled(l);
    lemma_kept(l.ticks, w, keep);
    assert forall|k: TickView| #[trigger] retained(k, w, keep) <==> (k.abs >= w || outranks(k, keep)) by {
        if crate::thinning::claimed(k.ranks, keep) {
            let i = choose|i: int| crate::thinning::claims(k.ranks, keep, i);
            assert(k.ranks[i] > keep[i]);
        }
        if outranks(k, keep) {
            let i = choose|i: int|
                #![trigger k.ranks[i]]
                0 <= i < k.ranks.len() && i < keep.len() && k.ranks[i] > keep[i];
            assert(crate::thinning::claims(k.ranks, keep, i));
        }
    }
    assert forall|p: int| #![trigger t.ticks[p]] 0 <= p < t.ticks.len() implies (z.ticks.contains(
        t.ticks[p],
    ) <==> t.ticks[p].abs >= t.opened + 1 - t.capacity / 2 || outranks(t.ticks[p], z.keep)) by {
        assert(l.ticks[p] == t.ticks[p]);
        if z.ticks.contains(t.ticks[p]) {
            let q = choose|q: int| 0 <= q < z.ticks.len() && z.ticks[q] == t.ticks[p];
            assert(retained(z.ticks[q], w, keep));
        }
        assert(retained(t.ticks[p], w, keep) <==> (t.ticks[p].abs >= w || outranks(t.ticks[p], keep)));
    }
    assert forall|q: int| #![trigger z.ticks[q]] 0 <= q < z.ticks.len() - 1 implies t.ticks.contains(
        z.ticks[q],
    ) by {
        let x = choose|x: int| 0 <= x < l.ticks.len() && l.ticks[x] == z.ticks[q];
        if x == t.ticks.len() {
            assert(z.ticks[q].abs < z.ticks[z.ticks.len() - 1].abs);
        }
        assert(t.ticks[x] == z.ticks[q]);
    }
}

/// How many of the first `n` ticks were taken away, by the ids that are left.
pub open spec fn gone_before(ticks: Seq<TickView>, left: Seq<TickView>, n: nat) -> nat
    decreases n,
{
    if n == 0 {
        0
    } else {
        gone_before(ticks, left, (n - 1) as nat) + if left.contains(ticks[n - 1]) {
            0nat
        } else {
            1nat
        }
    }
}

proof fn lemma_freed(ticks: Seq<TickView>, from: nat, keep: Seq<u8>, left: Seq<TickView>)
    requires
        forall|p: int|
            #![trigger ticks[p]]
            0 <= p < ticks.len() ==> (left.contains(ticks[p]) <==> retained(ticks[p], from, keep)),
    ensures
        freed(ticks, from, keep).len() == gone_before(ticks, left, ticks.len()),
        forall|p: int|
            #![trigger ticks[p]]
            0 <= p < ticks.len() && !left.contains(ticks[p]) ==> gone_before(ticks, left, p as nat)
                < freed(ticks, from, keep).len() && freed(ticks, from, keep)[gone_before(
                ticks,
                left,
                p as nat,
            ) as int] == ticks[p].acts,
    decreases ticks.len(),
{
    if ticks.len() > 0 {
        let d = ticks.drop_last();
        let n = ticks.len() - 1;
        assert forall|p: int| #![trigger d[p]] 0 <= p < d.len() implies (left.contains(d[p])
            <==> retained(d[p], from, keep)) by {
            assert(d[p] == ticks[p]);
        }
        lemma_freed(d, from, keep, left);
        lemma_gone_same(d, ticks, left, n as nat);
        assert(ticks[n] == ticks.last());
        assert forall|p: int| #![trigger ticks[p]] 0 <= p < ticks.len() && !left.contains(
            ticks[p],
        ) implies gone_before(ticks, left, p as nat) < freed(ticks, from, keep).len() && freed(
            ticks,
            from,
            keep,
        )[gone_before(ticks, left, p as nat) as int] == ticks[p].acts by {
            if p < n {
                assert(d[p] == ticks[p]);
                lemma_gone_same(d, ticks, left, p as nat);
            }
        }
    }
}

proof fn lemma_gone_same(a: Seq<TickView>, b: Seq<TickView>, left: Seq<TickView>, n: nat)
    requires
        n <= a.len(),
        n <= b.len(),
        forall|k: int| #![trigger a[k]] 0 <= k < n ==> a[k] == b[k],
    ensures
        gone_before(a, left, n) == gone_before(b, left, n),
    decreases n,
{
    if n > 0 {
        lemma_gone_same(a, b, left, (n - 1) as nat);
        assert(a[n - 1] == b[n - 1]);
    }
}

/// The buffers a pass hands back are those of the ticks it took away, each once and in their order, with
/// what they held.
pub proof fn a_pass_hands_back_what_it_took(t: TapeView, msg: MsgView, p: int)
    requires
        t.ok(),
        open_to(t, msg),
        t.opened < 0x1_0000_0000_0000_0000,
        t.ticks.len() + 1 == t.capacity,
        0 <= p < t.ticks.len(),
        !absorbed(t, msg).ticks.contains(t.ticks[p]),
    ensures
        ({
            let left = absorbed(t, msg).ticks;
            let at = gone_before(t.ticks, left, p as nat);
            at < absorb_freed(t, msg).len() && absorb_freed(t, msg)[at as int] == t.ticks[p].acts
        }),
{
    let l = landed(t, msg);
    let z = absorbed(t, msg);
    lemma_with_nodes(t, msg.meta);
    lemma_landed_sound(t, msg);
    assert(l.ordered());
    lemma_kept(l.ticks, whole(l), settled(l));
    assert forall|x: int| #![trigger l.ticks[x]] 0 <= x < l.ticks.len() implies (z.ticks.contains(
        l.ticks[x],
    ) <==> retained(l.ticks[x], whole(l), settled(l))) by {
        if z.ticks.contains(l.ticks[x]) {
            let q = choose|q: int| 0 <= q < z.ticks.len() && z.ticks[q] == l.ticks[x];
            assert(retained(z.ticks[q], whole(l), settled(l)));
        }
    }
    lemma_freed(l.ticks, whole(l), settled(l), z.ticks);
    assert(l.ticks[p] == t.ticks[p]);
    lemma_gone_same(t.ticks, l.ticks, z.ticks, p as nat);
}

/// How many rows some node claims at these exponents.
pub open spec fn rows_claimed(rows: Seq<Seq<u8>>, keep: Seq<u8>) -> nat
    decreases rows.len(),
{
    if rows.len() == 0 {
        0
    } else {
        rows_claimed(rows.drop_last(), keep) + if exists|i: int|
            #![trigger rows.last()[i]]
            0 <= i < rows.last().len() && i < keep.len() && rows.last()[i] > keep[i] {
            1nat
        } else {
            0nat
        }
    }
}

/// How many rows node `i` claims at its exponent.
pub open spec fn rows_claimed_by(rows: Seq<Seq<u8>>, keep: Seq<u8>, i: int) -> nat
    decreases rows.len(),
{
    if rows.len() == 0 {
        0
    } else {
        rows_claimed_by(rows.drop_last(), keep, i) + if 0 <= i < rows.last().len() && i < keep.len()
            && rows.last()[i] > keep[i] {
            1nat
        } else {
            0nat
        }
    }
}

proof fn lemma_rows_claimed(rows: Seq<Seq<u8>>, keep: Seq<u8>)
    ensures
        backbone(rows, keep) == rows_claimed(rows, keep),
        forall|i: int| #![trigger share(rows, keep, i)] share(rows, keep, i) == rows_claimed_by(
            rows,
            keep,
            i,
        ),
    decreases rows.len(),
{
    if rows.len() > 0 {
        lemma_rows_claimed(rows.drop_last(), keep);
        let row = rows.last();
        if crate::thinning::claimed(row, keep) {
            let i = choose|i: int| crate::thinning::claims(row, keep, i);
            assert(rows.last()[i] > keep[i]);
        }
        if exists|i: int|
            #![trigger rows.last()[i]]
            0 <= i < rows.last().len() && i < keep.len() && rows.last()[i] > keep[i] {
            let i = choose|i: int|
                #![trigger rows.last()[i]]
                0 <= i < rows.last().len() && i < keep.len() && rows.last()[i] > keep[i];
            assert(crate::thinning::claims(row, keep, i));
        }
        assert forall|i: int| #![trigger share(rows, keep, i)] share(rows, keep, i)
            == rows_claimed_by(rows, keep, i) by {
            assert(share(rows.drop_last(), keep, i) == rows_claimed_by(rows.drop_last(), keep, i));
        }
    }
}

/// A squeeze raises no more than it has to and always the greediest: exponents whose claims fit are left
/// as they are, and where they do not fit, the node that claims the most rows, the last of those where
/// several do, is raised by one and the squeeze goes on from there.
pub proof fn a_squeeze_raises_the_greediest(rs: Seq<Seq<u8>>, keep: Seq<u8>, limit: nat)
    requires
        crate::thinning::ranked(rs),
        forall|p: int| #![trigger rs[p]] 0 <= p < rs.len() ==> rs[p].len() <= keep.len(),
    ensures
        rows_claimed(rs, keep) <= limit ==> squeezed(rs, keep, limit) == keep,
        rows_claimed(rs, keep) > limit ==> exists|g: int|
            {
                &&& 0 <= g < keep.len()
                &&& keep[g] < 64
                &&& forall|i: int|
                    0 <= i < keep.len() ==> #[trigger] rows_claimed_by(rs, keep, i) <= rows_claimed_by(
                        rs,
                        keep,
                        g,
                    )
                &&& forall|i: int|
                    g < i < keep.len() ==> #[trigger] rows_claimed_by(rs, keep, i) < rows_claimed_by(
                        rs,
                        keep,
                        g,
                    )
                &&& squeezed(rs, keep, limit) == #[trigger] squeezed(
                    rs,
                    keep.update(g, (keep[g] + 1) as u8),
                    limit,
                )
            },
{
    lemma_rows_claimed(rs, keep);
    if rows_claimed(rs, keep) > limit {
        crate::thinning::lemma_over_raisable(rs, keep, limit);
        let s = shares(rs, keep);
        let g = greediest(s);
        lemma_greediest(s);
        assert forall|i: int| 0 <= i < keep.len() implies #[trigger] rows_claimed_by(rs, keep, i)
            <= rows_claimed_by(rs, keep, g) by {
            assert(s[i] == share(rs, keep, i));
            assert(s[g] == share(rs, keep, g));
        }
        assert forall|i: int| g < i < keep.len() implies #[trigger] rows_claimed_by(rs, keep, i)
            < rows_claimed_by(rs, keep, g) by {
            assert(s[i] == share(rs, keep, i));
            assert(s[g] == share(rs, keep, g));
        }
        assert(squeezed(rs, keep, limit) == squeezed(
            rs,
            keep.update(g, (keep[g] + 1) as u8),
            limit,
        ));
    }
}

/// What a pass squeezes are the ticks before the newest half of the buffer, down to a quarter of it.
pub proof fn a_pass_squeezes_what_is_old(t: TapeView, n: nat)
    requires
        t.sound(),
        n <= t.ticks.len(),
        forall|p: int|
            #![trigger t.ticks[p]]
            0 <= p < n ==> t.ticks[p].abs + t.capacity / 2 < t.opened,
        forall|p: int|
            #![trigger t.ticks[p]]
            n <= p < t.ticks.len() ==> t.ticks[p].abs + t.capacity / 2 >= t.opened,
    ensures
        crate::model::thinned(t).keep == squeezed(
            Seq::new(n, |p: int| t.ticks[p].ranks),
            t.keep,
            t.capacity / 4,
        ),
{
    assert(t.ordered());
    let w = whole(t);
    crate::keeping::lemma_under(t.ticks, w);
    let u = under(t.ticks, w) as int;
    if u < n {
        assert(t.ticks[u].abs >= w);
    }
    if n < u {
        assert(t.ticks[n as int].abs < w);
    }
    assert(rows(t.ticks, n) =~= Seq::new(n, |p: int| t.ticks[p].ranks));
}

/// A node's block of samples is open for sixteen of them: the sixteenth closes it, and what it closes
/// with is the least of what was sampled since it was opened. Sampling leaves the estimate alone.
pub proof fn a_sample_is_counted_in(c: Cost, ns: u64)
    requires
        c.block_n < 16,
    ensures
        c.sampled(ns).ns == c.ns,
        c.closes() <==> c.block_n == 15,
        c.block_n < 15 ==> c.sampled(ns).block_n == c.block_n + 1,
        c.block_n == 15 ==> c.sampled(ns).block_n == 0,
        c.block_n == 0 ==> c.sampled(ns).block_min == ns,
        c.block_n > 0 && ns <= c.block_min ==> c.sampled(ns).block_min == ns,
        c.block_n > 0 && ns >= c.block_min ==> c.sampled(ns).block_min == c.block_min,
        c.floor(ns) == c.sampled(ns).block_min,
{
}

proof fn lemma_closed(cost: Seq<Cost>, spans: Seq<u64>, n: nat)
    requires
        n <= cost.len(),
        n <= 0x1_0000_0000,
    ensures
        forall|k: int|
            #![trigger closed_blocks(cost, spans, n)[k]]
            0 <= k < closed_blocks(cost, spans, n).len() ==> ({
                let (i, m) = closed_blocks(cost, spans, n)[k];
                i < n && cost[i as int].closes() && m == cost[i as int].floor(spans[i as int])
            }),
        forall|i: int|
            #![trigger cost[i]]
            0 <= i < n && cost[i].closes() ==> closed_blocks(cost, spans, n).contains(
                (i as usize, cost[i].floor(spans[i])),
            ),
        forall|a: int, b: int|
            #![trigger closed_blocks(cost, spans, n)[a], closed_blocks(cost, spans, n)[b]]
            0 <= a < b < closed_blocks(cost, spans, n).len() ==> closed_blocks(cost, spans, n)[a].0
                < closed_blocks(cost, spans, n)[b].0,
    decreases n,
{
    if n > 0 {
        let m = (n - 1) as nat;
        lemma_closed(cost, spans, m);
        let r = closed_blocks(cost, spans, m);
        let z = closed_blocks(cost, spans, n);
        assert forall|i: int| #![trigger cost[i]] 0 <= i < n && cost[i].closes() implies z.contains(
            (i as usize, cost[i].floor(spans[i])),
        ) by {
            if i < m {
                let k = choose|k: int|
                    0 <= k < r.len() && r[k] == (i as usize, cost[i].floor(spans[i]));
                assert(z[k] == r[k]);
            } else {
                assert(z[r.len() as int] == (i as usize, cost[i].floor(spans[i])));
            }
        }
        assert forall|a: int, b: int| #![trigger z[a], z[b]] 0 <= a < b < z.len() implies z[a].0
            < z[b].0 by {
            if b < r.len() {
                assert(r[a].0 < r[b].0);
            } else {
                assert(r[a].0 < m);
            }
        }
        assert forall|k: int| #![trigger z[k]] 0 <= k < z.len() implies ({
            let (i, x) = z[k];
            i < n && cost[i as int].closes() && x == cost[i as int].floor(spans[i as int])
        }) by {
            if k < r.len() {
                assert(z[k] == r[k]);
            }
        }
    }
}

/// A clocked tick counts one span in for each node, its own, and an unclocked one counts none. What is
/// handed back are the nodes whose block it closed, each once and in order, with the block's minimum.
pub proof fn a_clocked_tick_samples_each_node(t: TapeView, msg: MsgView, i: int)
    requires
        t.ok(),
        open_to(t, msg),
        t.opened < 0x1_0000_0000_0000_0000,
        t.topology.len() + msg.meta.len() <= 0x1_0000_0000,
        0 <= i < t.topology.len() + msg.meta.len(),
    ensures
        ({
            let was = if i < t.topology.len() {
                t.cost[i]
            } else {
                Cost { block_n: 0, block_min: 0, ns: None }
            };
            let now = absorbed(t, msg).cost[i];
            let closed = absorb_closed(t, msg);
            &&& msg.spans is None ==> now == was && closed.len() == 0
            &&& msg.spans matches Some(xs) ==> now == was.sampled(xs[i])
            &&& (exists|k: int| #![trigger closed[k]] 0 <= k < closed.len() && closed[k].0 == i)
                <==> msg.spans is Some && was.block_n == 15
            &&& forall|k: int|
                #![trigger closed[k]]
                0 <= k < closed.len() && closed[k].0 == i ==> closed[k].1 == now.block_min
            &&& forall|a: int, b: int|
                #![trigger closed[a], closed[b]]
                0 <= a < b < closed.len() ==> closed[a].0 < closed[b].0
        }),
{
    lemma_with_nodes(t, msg.meta);
    let a = with_nodes(t, msg.meta);
    let closed = absorb_closed(t, msg);
    if i < t.topology.len() {
        assert(t.cost[i].wf());
    }
    match msg.spans {
        Some(xs) => {
            lemma_closed(a.cost, xs, a.cost.len());
            if a.cost[i].closes() {
                let k = choose|k: int|
                    0 <= k < closed.len() && closed[k] == (i as usize, a.cost[i].floor(xs[i]));
                assert(closed[k].0 == i);
            }
        },
        None => {},
    }
}

/// A tape takes a tick exactly while its recording is not over, a clocked one where it has a span for
/// each node the tape knows and each node the tick tells of.
pub proof fn a_tape_takes_what_fits_it(t: TapeView, msg: MsgView)
    ensures
        open_to(t, msg) <==> !t.sealed && (msg.spans is None || msg.spans->Some_0.len()
            == t.cost.len() + msg.meta.len()),
{
}

/// An empty tape holds nothing but what it was made with.
pub proof fn a_blank_tape_holds_nothing(price_node: Option<Seq<char>>, capacity: nat, bucket_ms: i64)
    ensures
        ({
            let b = blank(price_node, capacity, bucket_ms);
            &&& b.price_node == price_node
            &&& b.capacity == capacity
            &&& b.bucket_ms == bucket_ms
            &&& b.topology.len() == 0
            &&& b.series.len() == 0
            &&& b.ticks.len() == 0
            &&& b.opened == 0
            &&& b.dropped == 0
            &&& b.cursor == 0
            &&& !b.sealed
        }),
{
}

/// What is written of a recording are its addressable ticks and everything else as it stands; as a file
/// it is over, and its total is the total that was shown.
pub proof fn what_is_written_is_what_is_addressable(t: TapeView)
    requires
        t.ok(),
    ensures
        ({
            let f = t.addressable();
            &&& f.ticks == t.ticks.take(reachable(t))
            &&& f.opened == t.frame().total
            &&& f.sealed
            &&& f.price_node == t.price_node
            &&& f.capacity == t.capacity
            &&& f.bucket_ms == t.bucket_ms
            &&& f.topology == t.topology
            &&& f.cost == t.cost
            &&& f.fires == t.fires
            &&& f.keep == t.keep
            &&& f.dropped == t.dropped
            &&& f.series == t.series
            &&& f.cursor == t.cursor
        }),
{
    crate::searching::the_cursor_stands_on_one_tick(t);
    assert(t.addressable().ticks =~= t.ticks.take(reachable(t)));
}

/// A file is refused for its header alone where it is cut short, does not open as a tape does, or is of
/// another layout, in that order.
pub proof fn a_header_is_refused_for_cause(bytes: Seq<u8>)
    ensures
        ({
            let opens = bytes.len() >= 8 && bytes[0] == 0x45 && bytes[1] == 0x58 && bytes[2] == 0x45
                && bytes[3] == 0x43 && bytes[4] == 0x56 && bytes[5] == 0x49 && bytes[6] == 0x5a
                && bytes[7] == 0x54;
            let schema = bytes[8] + 0x100 * bytes[9] + 0x1_0000 * bytes[10] + 0x100_0000 * bytes[11];
            &&& header_error(bytes) == Some(FileError::Truncated) <==> bytes.len() < 8 || (opens
                && bytes.len() < 12)
            &&& header_error(bytes) == Some(FileError::NotATape) <==> bytes.len() >= 8 && !opens
            &&& header_error(bytes) is None <==> opens && bytes.len() >= 12 && schema == 2
            &&& opens && bytes.len() >= 12 && schema != 2 ==> header_error(bytes) == Some(
                FileError::Schema(schema as u32),
            )
        }),
{
    if bytes.len() >= 8 {
        let t = bytes.take(8);
        let m = crate::file::magic();
        if t[0] == m[0] && t[1] == m[1] && t[2] == m[2] && t[3] == m[3] && t[4] == m[4] && t[5] == m[5]
            && t[6] == m[6] && t[7] == m[7] {
            assert(t =~= m);
        }
    }
    if bytes.len() >= 12 {
        let s = bytes.subrange(8, 12);
        assert(s[0] == bytes[8] && s[1] == bytes[9] && s[2] == bytes[10] && s[3] == bytes[11]);
    }
}

/// A batch is a quarter of the buffer wide, but no wider than sixty-four ticks and never empty.
pub proof fn a_batch_is_a_quarter_wide(capacity: nat)
    ensures
        1 <= batch_width(capacity) <= 64,
        4 <= capacity <= 256 ==> batch_width(capacity) == capacity / 4,
        capacity < 4 ==> batch_width(capacity) == 1,
        capacity > 256 ==> batch_width(capacity) == 64,
{
}

/// A tick's bytes are its own and those of its columns: eight for each value, Jacobian entry and exact
/// entry, a word for each width, one for each flag, rank and byte of text, and its ends.
pub proof fn a_footprint_is_summed_by_column(f: Footprint, fixed: u32, word: u32, ends: u32)
    ensures
        f.size(fixed, word, ends) == fixed + f.outs + 8 * f.vals + 8 * f.jac + 8 * f.block + word
            * f.widths + f.exact + f.ran + ends * f.ends + f.ranks,
{
}

} // verus!
