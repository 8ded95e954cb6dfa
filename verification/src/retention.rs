//! What a long recording still holds: the laws of thinning, over whole runs.
use vstd::prelude::*;

use crate::keeping::{
    absorbing_keeps_a_tape, climbing, lemma_held_tick_ok, lemma_kept, lemma_kept_len,
    lemma_kept_tail, lemma_landed_sound, lemma_noted_ok, lemma_rows_ranked, lemma_spread,
    lemma_under, lemma_with_nodes,
};
use crate::model::{
    absorb_freed, absorbed, absorbed_all, batch_width, blank, counted, fired, freed, held_tick, kept,
    landed, open_to, open_to_all, retained, rows, settled, thinned, under, whole, with_nodes,
    MsgView, TapeView, TickView,
};
use crate::rank::{lemma_halvings_u64, lemma_rank_bound, FIRST};
use crate::thinning::{
    at_most, claims, debut, debuts, firsts, levelled, lemma_total_at_most, opens, rooted, share,
    shares, squeeze_is_fair, squeeze_spares_firsts, total,
};

verus! {

/// The tick `j` places before the newest.
pub open spec fn from_newest(ticks: Seq<TickView>, j: int) -> TickView {
    ticks[ticks.len() - 1 - j]
}

/// The newest half of the buffer is held whole: position by position the ids count down from the
/// newest.
pub open spec fn whole_tail(t: TapeView) -> bool {
    &&& t.ticks.len() >= tail_len(t)
    &&& forall|j: int|
        #![trigger from_newest(t.ticks, j)]
        0 <= j < tail_len(t) ==> from_newest(t.ticks, j).abs == t.opened - 1 - j
}

/// How many of the newest ticks are kept whole.
pub open spec fn tail_len(t: TapeView) -> nat {
    if t.opened <= t.capacity / 2 {
        t.opened
    } else {
        t.capacity / 2
    }
}

/// A pass leaves the whole stretch whole.
proof fn lemma_thinned_tail(t: TapeView)
    requires
        t.sound(),
        whole_tail(t),
    ensures
        whole_tail(thinned(t)),
{
    let w = whole(t);
    let n = under(t.ticks, w) as int;
    let r = thinned(t);
    assert(t.ordered());
    lemma_under(t.ticks, w);
    lemma_kept_tail(t.ticks, w, settled(t));
    let len = t.ticks.len() as int;
    let tail = t.ticks.skip(n);
    if tail_len(t) > 0 {
        assert(from_newest(t.ticks, tail_len(t) - 1).abs == t.opened - tail_len(t));
        assert(from_newest(t.ticks, tail_len(t) - 1).abs >= w);
        assert(len - tail_len(t) >= n);
    }
    assert forall|j: int|
        #![trigger from_newest(r.ticks, j)]
        0 <= j < tail_len(r) implies from_newest(r.ticks, j).abs == r.opened - 1 - j by {
        assert(from_newest(t.ticks, j).abs == t.opened - 1 - j);
        assert(t.ticks[len - 1 - j].abs >= w);
        assert(len - 1 - j >= n);
        let head = kept(t.ticks.take(n), w, settled(t));
        assert(r.ticks == head + tail);
        assert(r.ticks.len() - 1 - j == head.len() + (tail.len() - 1 - j));
        assert(r.ticks[r.ticks.len() - 1 - j] == tail[tail.len() - 1 - j]);
    }
}

/// The freshest stretch stays tick-exact: whatever is absorbed, the newest half of the buffer is held
/// whole.
pub proof fn the_newest_half_stays_whole(t: TapeView, msg: MsgView)
    requires
        t.ok(),
        whole_tail(t),
        open_to(t, msg),
        t.opened < 0x1_0000_0000_0000_0000,
    ensures
        whole_tail(absorbed(t, msg)),
{
    lemma_landed_tail(t, msg);
    lemma_landed_sound(t, msg);
    if landed(t, msg).ticks.len() == t.capacity {
        lemma_thinned_tail(landed(t, msg));
    }
}

/// A tick that landed extends the whole stretch.
proof fn lemma_landed_tail(t: TapeView, msg: MsgView)
    requires
        t.ok(),
        !t.sealed,
        whole_tail(t),
    ensures
        whole_tail(landed(t, msg)),
{
    lemma_with_nodes(t, msg.meta);
    let l = landed(t, msg);
    assert forall|j: int|
        #![trigger from_newest(l.ticks, j)]
        0 <= j < tail_len(l) implies from_newest(l.ticks, j).abs == l.opened - 1 - j by {
        if j > 0 {
            assert(from_newest(t.ticks, j - 1).abs == t.opened - 1 - (j - 1));
            assert(l.ticks[l.ticks.len() - 1 - j] == t.ticks[t.ticks.len() - 1 - (j - 1)]);
        }
    }
}

/// A recording holds its newest half whole from the first tick on.
pub proof fn a_run_ends_in_a_whole_stretch(t: TapeView, msgs: Seq<MsgView>)
    requires
        t.ok(),
        whole_tail(t),
        open_to_all(t, msgs),
        t.opened + msgs.len() < 0x1_0000_0000_0000_0000,
    ensures
        absorbed_all(t, msgs).ok(),
        absorbed_all(t, msgs).sealed == t.sealed,
        whole_tail(absorbed_all(t, msgs)),
        absorbed_all(t, msgs).opened == t.opened + msgs.len(),
        absorbed_all(t, msgs).capacity == t.capacity,
    decreases msgs.len(),
{
    if msgs.len() > 0 {
        let d = msgs.drop_last();
        a_run_ends_in_a_whole_stretch(t, d);
        let u = absorbed_all(t, d);
        the_newest_half_stays_whole(u, msgs.last());
        absorbing_keeps_a_tape(u, msgs.last());
        lemma_noted_ok(u, msgs.last());
    }
}

/// An empty tape is a tape, and whole as far as it goes.
pub proof fn a_blank_tape_is_whole(price_node: Option<Seq<char>>, capacity: nat, bucket_ms: i64)
    requires
        capacity > 3,
        bucket_ms > 0,
    ensures
        blank(price_node, capacity, bucket_ms).ok(),
        whole_tail(blank(price_node, capacity, bucket_ms)),
        spared(blank(price_node, capacity, bucket_ms)),
        tallied(blank(price_node, capacity, bucket_ms)),
{
}

/// What absorbing a tick frees: nothing, or where it makes a pass never under a quarter of the buffer
/// and never more than what is not in the whole stretch.
pub proof fn a_pass_frees_a_quarter_to_a_half(t: TapeView, msg: MsgView)
    requires
        t.ok(),
        whole_tail(t),
        open_to(t, msg),
        t.opened < 0x1_0000_0000_0000_0000,
    ensures
        t.ticks.len() + 1 < t.capacity ==> absorb_freed(t, msg).len() == 0,
        t.ticks.len() + 1 == t.capacity ==> t.capacity / 4 <= absorb_freed(t, msg).len()
            <= t.capacity - t.capacity / 2,
{
    lemma_with_nodes(t, msg.meta);
    if t.ticks.len() + 1 == t.capacity {
        lemma_landed_sound(t, msg);
        lemma_landed_tail(t, msg);
        lemma_pass_frees(landed(t, msg));
    }
}

proof fn lemma_pass_frees(t: TapeView)
    requires
        t.sound(),
        whole_tail(t),
        t.ticks.len() == t.capacity,
    ensures
        freed(t.ticks, whole(t), settled(t)).len() >= t.capacity / 4,
        freed(t.ticks, whole(t), settled(t)).len() <= t.capacity - t.capacity / 2,
{
    let w = whole(t);
    assert(t.ordered());
    crate::keeping::a_pass_leaves_a_quarter_free(t);
    lemma_kept(t.ticks, w, settled(t));
    lemma_kept_len(t.ticks, w, settled(t));
    lemma_under(t.ticks, w);
    let n = under(t.ticks, w) as int;
    let half = (t.capacity / 2) as int;
    lemma_spread(t.ticks, 0, t.ticks.len() - 1);
    let j = half - 1;
    assert(from_newest(t.ticks, j).abs == t.opened - 1 - j);
    assert(from_newest(t.ticks, j).abs >= w);
}

/// Node `i`'s first fire is held at or before position `p`.
pub open spec fn begun(ticks: Seq<TickView>, i: int, p: int) -> bool {
    exists|q: int| 0 <= q <= p && begins(ticks, i, q)
}

/// Node `i`'s first fire is held at position `q`.
pub open spec fn begins(ticks: Seq<TickView>, i: int, q: int) -> bool {
    0 <= q < ticks.len() && 0 <= i < ticks[q].ranks.len() && ticks[q].ranks[i] == FIRST
}

/// Node by node: no exponent has reached the one that would drop a first fire; the first fire is held
/// once, before every other, and by every node that ever fired; a node that never fired is on no tick.
pub open spec fn spared(t: TapeView) -> bool {
    &&& forall|i: int|
        #![trigger t.keep[i]]
        0 <= i < t.keep.len() ==> t.keep[i] < FIRST
    &&& forall|i: int|
        #![trigger firsts(rows(t.ticks, t.ticks.len()), i)]
        0 <= i ==> firsts(rows(t.ticks, t.ticks.len()), i) <= 1
    &&& forall|i: int, p: int|
        #![trigger t.fires[i], t.ticks[p].ranks[i]]
        0 <= i < t.fires.len() && t.fires[i] == 0 && 0 <= p < t.ticks.len() && i
            < t.ticks[p].ranks.len() ==> t.ticks[p].ranks[i] == 0
    &&& forall|i: int, p: int|
        #![trigger t.ticks[p].ranks[i]]
        0 <= p < t.ticks.len() && 0 <= i < t.ticks[p].ranks.len() && t.ticks[p].ranks[i] > 0
            ==> begun(t.ticks, i, p)
    &&& forall|i: int|
        #![trigger t.fires[i]]
        0 <= i < t.fires.len() && t.fires[i] > 0 ==> begun(t.ticks, i, t.ticks.len() - 1)
}

/// How many ticks with an id below `c` hold a first fire.
pub open spec fn debuts_before(ticks: Seq<TickView>, c: nat) -> nat
    decreases ticks.len(),
{
    if ticks.len() == 0 {
        0
    } else {
        debuts_before(ticks.drop_last(), c) + if ticks.last().abs < c && debut(
            ticks.last().ranks,
        ) {
            1nat
        } else {
            0nat
        }
    }
}

/// The ticks before the whole stretch that hold a first fire fit the backbone.
pub open spec fn firsts_fit(t: TapeView) -> bool {
    debuts_before(t.ticks, whole(t)) <= t.capacity / 4
}

/// Absorbing the tick makes no pass, or one on which the ticks that hold a first fire fit the backbone.
pub open spec fn firsts_fit_on_pass(t: TapeView, msg: MsgView) -> bool {
    landed(t, msg).ticks.len() == t.capacity ==> firsts_fit(landed(t, msg))
}

/// Counting by id is counting the rows before the position the id names.
proof fn lemma_debuts_rows(ticks: Seq<TickView>, c: nat)
    requires
        climbing(ticks),
    ensures
        debuts(rows(ticks, under(ticks, c))) == debuts_before(ticks, c),
    decreases ticks.len(),
{
    lemma_under(ticks, c);
    if ticks.len() > 0 {
        let d = ticks.drop_last();
        assert(climbing(d));
        lemma_debuts_rows(d, c);
        lemma_under(d, c);
        if ticks.last().abs < c {
            let n = ticks.len() as int;
            if n > 1 {
                assert(ticks[n - 2].abs < ticks[n - 1].abs);
                assert(d.last() == ticks[n - 2]);
            }
            assert(under(d, c) == d.len());
            let a = rows(ticks, ticks.len());
            assert(a.drop_last() =~= rows(d, d.len()));
            assert(a.last() == ticks.last().ranks);
        } else {
            assert(rows(ticks, under(ticks, c)) =~= rows(d, under(d, c)));
        }
    }
}

/// A pass adds no tick that holds a first fire.
proof fn lemma_debuts_kept(ticks: Seq<TickView>, from: nat, keep: Seq<u8>, c: nat)
    ensures
        debuts_before(kept(ticks, from, keep), c) <= debuts_before(ticks, c),
    decreases ticks.len(),
{
    if ticks.len() > 0 {
        let d = ticks.drop_last();
        lemma_debuts_kept(d, from, keep, c);
        let k = kept(ticks, from, keep);
        if retained(ticks.last(), from, keep) {
            assert(k.drop_last() =~= kept(d, from, keep));
        }
    }
}

proof fn lemma_firsts_prefix(rs: Seq<Seq<u8>>, n: int, i: int)
    requires
        0 <= n <= rs.len(),
    ensures
        firsts(rs.take(n), i) <= firsts(rs, i),
    decreases rs.len(),
{
    if n < rs.len() {
        lemma_firsts_prefix(rs.drop_last(), n, i);
        assert(rs.drop_last().take(n) =~= rs.take(n));
    } else {
        assert(rs.take(n) =~= rs);
    }
}

proof fn lemma_firsts_kept(ticks: Seq<TickView>, from: nat, keep: Seq<u8>, i: int)
    ensures
        ({
            let k = kept(ticks, from, keep);
            firsts(rows(k, k.len()), i) <= firsts(rows(ticks, ticks.len()), i)
        }),
    decreases ticks.len(),
{
    if ticks.len() > 0 {
        let d = ticks.drop_last();
        lemma_firsts_kept(d, from, keep, i);
        let k = kept(ticks, from, keep);
        let s = kept(d, from, keep);
        assert(rows(ticks, ticks.len()).drop_last() =~= rows(d, d.len()));
        assert(rows(ticks, ticks.len()).last() == ticks.last().ranks);
        if retained(ticks.last(), from, keep) {
            assert(rows(k, k.len()).drop_last() =~= rows(s, s.len()));
            assert(rows(k, k.len()).last() == ticks.last().ranks);
        }
    }
}

/// A node no row ranks has no first fire on them.
proof fn lemma_firsts_none(rs: Seq<Seq<u8>>, i: int)
    requires
        forall|p: int|
            #![trigger rs[p]]
            0 <= p < rs.len() && 0 <= i < rs[p].len() ==> rs[p][i] == 0,
    ensures
        firsts(rs, i) == 0,
    decreases rs.len(),
{
    if rs.len() > 0 {
        let d = rs.drop_last();
        assert forall|p: int| #![trigger d[p]] 0 <= p < d.len() && 0 <= i < d[p].len() implies d[p][i]
            == 0 by {
            assert(rs[p] == d[p]);
        }
        lemma_firsts_none(d, i);
        assert(rs[rs.len() - 1] == rs.last());
    }
}

/// Naming nodes takes no first fire away.
proof fn lemma_named_spared(t: TapeView, msg: MsgView)
    requires
        t.ok(),
        !t.sealed,
        spared(t),
    ensures
        spared(with_nodes(t, msg.meta)),
{
    let a = with_nodes(t, msg.meta);
    lemma_with_nodes(t, msg.meta);
    assert forall|i: int| #![trigger a.keep[i]] 0 <= i < a.keep.len() implies a.keep[i] < FIRST by {
        if i < t.nodes() {
            assert(t.keep[i] < FIRST);
        }
    }
    assert forall|i: int, p: int|
        #![trigger a.fires[i], a.ticks[p].ranks[i]]
        0 <= i < a.fires.len() && a.fires[i] == 0 && 0 <= p < a.ticks.len() && i
            < a.ticks[p].ranks.len() implies a.ticks[p].ranks[i] == 0 by {
        assert(t.ticks[p].ok(t.nodes()));
        assert(i < t.nodes());
        assert(t.fires[i] == 0);
        assert(t.ticks[p].ranks[i] == 0);
    }
    assert forall|i: int, p: int|
        #![trigger a.ticks[p].ranks[i]]
        0 <= p < a.ticks.len() && 0 <= i < a.ticks[p].ranks.len() && a.ticks[p].ranks[i]
            > 0 implies begun(a.ticks, i, p) by {
        assert(t.ticks[p].ranks[i] > 0);
    }
    assert forall|i: int|
        #![trigger a.fires[i]]
        0 <= i < a.fires.len() && a.fires[i] > 0 implies begun(a.ticks, i, a.ticks.len() - 1) by {
        assert(i < t.nodes());
        assert(t.fires[i] > 0);
    }
}

/// A tick that holds a first fire is kept by exponents that spare it, and comes before what it came
/// before.
proof fn lemma_begun_kept(ticks: Seq<TickView>, from: nat, keep: Seq<u8>, i: int, x: int, p: int)
    requires
        climbing(ticks),
        0 <= i < keep.len(),
        keep[i] < FIRST,
        0 <= x < ticks.len(),
        begun(ticks, i, x),
        0 <= p < kept(ticks, from, keep).len(),
        ticks[x].abs <= kept(ticks, from, keep)[p].abs,
    ensures
        begun(kept(ticks, from, keep), i, p),
{
    let r = kept(ticks, from, keep);
    lemma_kept(ticks, from, keep);
    let y = choose|y: int| 0 <= y <= x && begins(ticks, i, y);
    assert(claims(ticks[y].ranks, keep, i));
    assert(retained(ticks[y], from, keep));
    assert(r.contains(ticks[y]));
    let q = choose|q: int| 0 <= q < r.len() && r[q] == ticks[y];
    if y < x {
        assert(ticks[y].abs < ticks[x].abs);
    }
    if q > p {
        assert(r[p].abs < r[q].abs);
    }
    assert(begins(r, i, q));
}

/// A pass spares every first fire while the ticks that hold one fit the backbone.
proof fn lemma_thinned_spared(a: TapeView)
    requires
        a.sound(),
        spared(a),
        firsts_fit(a),
    ensures
        spared(thinned(a)),
{
    let w = whole(a);
    let n = under(a.ticks, w);
    assert(a.ordered());
    lemma_under(a.ticks, w);
    lemma_rows_ranked(a, n);
    lemma_debuts_rows(a.ticks, w);
    let all = rows(a.ticks, a.ticks.len());
    let pre = rows(a.ticks, n);
    assert(pre =~= all.take(n as int));
    assert forall|i: int| #![trigger firsts(pre, i)] 0 <= i < a.keep.len() implies firsts(pre, i)
        <= 1 by {
        lemma_firsts_prefix(all, n as int, i);
        assert(firsts(all, i) <= 1);
    }
    assert(rooted(pre)) by {
        assert forall|p: int, i: int|
            #![trigger pre[p][i]]
            0 <= p < pre.len() && 0 <= i < pre[p].len() && pre[p][i] > 0 implies exists|q: int|
            opens(pre, i, q) by {
            assert(a.ticks[p].ranks[i] > 0);
            let q = choose|q: int| 0 <= q <= p && begins(a.ticks, i, q);
            assert(opens(pre, i, q));
        }
    }
    squeeze_spares_firsts(pre, a.keep, a.capacity / 4);
    let r = thinned(a);
    let keep = settled(a);
    lemma_kept(a.ticks, w, keep);
    assert forall|i: int|
        #![trigger firsts(rows(r.ticks, r.ticks.len()), i)]
        0 <= i implies firsts(rows(r.ticks, r.ticks.len()), i) <= 1 by {
        lemma_firsts_kept(a.ticks, w, keep, i);
        assert(firsts(all, i) <= 1);
    }
    assert forall|i: int, p: int|
        #![trigger r.fires[i], r.ticks[p].ranks[i]]
        0 <= i < r.fires.len() && r.fires[i] == 0 && 0 <= p < r.ticks.len() && i
            < r.ticks[p].ranks.len() implies r.ticks[p].ranks[i] == 0 by {
        assert(a.ticks.contains(r.ticks[p]));
        let q = choose|q: int| 0 <= q < a.ticks.len() && a.ticks[q] == r.ticks[p];
        assert(a.fires[i] == 0);
        assert(a.ticks[q].ranks[i] == 0);
    }
    assert forall|i: int, p: int|
        #![trigger r.ticks[p].ranks[i]]
        0 <= p < r.ticks.len() && 0 <= i < r.ticks[p].ranks.len() && r.ticks[p].ranks[i]
            > 0 implies begun(r.ticks, i, p) by {
        assert(a.ticks.contains(r.ticks[p]));
        let x = choose|x: int| 0 <= x < a.ticks.len() && a.ticks[x] == r.ticks[p];
        assert(a.ticks[x].ok(a.nodes()));
        assert(a.ticks[x].ranks[i] > 0);
        assert(keep[i] < FIRST);
        lemma_begun_kept(a.ticks, w, keep, i, x, p);
    }
    assert forall|i: int|
        #![trigger r.fires[i]]
        0 <= i < r.fires.len() && r.fires[i] > 0 implies begun(r.ticks, i, r.ticks.len() - 1) by {
        assert(a.fires[i] > 0);
        let x = a.ticks.len() - 1;
        assert(begun(a.ticks, i, x));
        assert(keep[i] < FIRST);
        assert(a.ticks.len() > 0);
        assert(retained(a.ticks[x], w, keep));
        assert(r.ticks.contains(a.ticks[x]));
        let k = choose|k: int| 0 <= k < r.ticks.len() && r.ticks[k] == a.ticks[x];
        let p = r.ticks.len() - 1;
        if k < p {
            assert(r.ticks[k].abs < r.ticks[p].abs);
        }
        lemma_begun_kept(a.ticks, w, keep, i, x, p);
    }
}

/// What absorbing makes of the fires and of the nodes; a pass touches neither.
proof fn lemma_absorbed_counts(t: TapeView, msg: MsgView)
    requires
        t.even(),
    ensures
        absorbed(t, msg).fires == counted(with_nodes(t, msg.meta).fires, msg.acts),
        absorbed(t, msg).fires == landed(t, msg).fires,
        absorbed(t, msg).capacity == t.capacity,
        absorbed(t, msg).nodes() == with_nodes(t, msg.meta).nodes(),
        absorbed(t, msg).nodes() == t.nodes() + msg.meta.len(),
        landed(t, msg).capacity == t.capacity,
        landed(t, msg).ticks == t.ticks.push(held_tick(t, msg)),
{
    lemma_with_nodes(t, msg.meta);
}

/// The tick that landed is held: it is the newest.
pub proof fn lemma_newest_held(t: TapeView, msg: MsgView)
    requires
        t.ok(),
        open_to(t, msg),
        t.opened < 0x1_0000_0000_0000_0000,
    ensures
        absorbed(t, msg).ticks.contains(held_tick(t, msg)),
        absorbed(t, msg).ticks.last() == held_tick(t, msg),
{
    let l = landed(t, msg);
    let z = absorbed(t, msg);
    lemma_landed_sound(t, msg);
    absorbing_keeps_a_tape(t, msg);
    lemma_absorbed_counts(t, msg);
    assert(l.ordered());
    assert(l.ticks[l.ticks.len() - 1] == held_tick(t, msg));
    if l.ticks.len() == l.capacity {
        lemma_kept(l.ticks, whole(l), settled(l));
        assert(retained(l.ticks[l.ticks.len() - 1], whole(l), settled(l)));
        assert(kept(l.ticks, whole(l), settled(l)).last() == l.ticks.last());
    }
    assert(z.ticks[z.ticks.len() - 1] == held_tick(t, msg));
}

/// A tick that landed takes no first fire away.
proof fn lemma_landed_spared(t: TapeView, msg: MsgView)
    requires
        t.ok(),
        spared(t),
        open_to(t, msg),
        t.opened < 0x8000_0000_0000_0000,
    ensures
        spared(landed(t, msg)),
{
    let q = with_nodes(t, msg.meta);
    let a = q;
    let z = landed(t, msg);
    lemma_noted_ok(t, msg);
    lemma_with_nodes(t, msg.meta);
    lemma_named_spared(t, msg);
    let h = held_tick(t, msg);
    assert forall|i: int| #![trigger z.keep[i]] 0 <= i < z.keep.len() implies z.keep[i] < FIRST by {
        assert(q.keep[i] < FIRST);
    }
    let zr = rows(z.ticks, z.ticks.len());
    let qr = rows(q.ticks, q.ticks.len());
    assert(zr.drop_last() =~= qr);
    assert(zr.last() == h.ranks);
    assert forall|i: int| #![trigger firsts(zr, i)] 0 <= i implies firsts(zr, i) <= 1 by {
        assert(firsts(qr, i) <= 1);
        if i < h.ranks.len() && h.ranks[i] == FIRST {
            assert(a.fires[i] <= a.opened);
            lemma_halvings_u64(a.fires[i]);
            if a.fires[i] > 0 {
                lemma_rank_bound(a.fires[i]);
            }
            assert(a.fires[i] == 0);
            assert forall|p: int| #![trigger qr[p]] 0 <= p < qr.len() && 0 <= i < qr[p].len() implies qr[p][i]
                == 0 by {
                assert(q.fires[i] == 0);
                assert(q.ticks[p].ranks[i] == 0);
            }
            lemma_firsts_none(qr, i);
        }
    }
    assert forall|i: int, p: int|
        #![trigger z.fires[i], z.ticks[p].ranks[i]]
        0 <= i < z.fires.len() && z.fires[i] == 0 && 0 <= p < z.ticks.len() && i
            < z.ticks[p].ranks.len() implies z.ticks[p].ranks[i] == 0 by {
        assert(!fired(msg.acts, i));
        assert(a.fires[i] == 0);
        if p < q.ticks.len() {
            assert(q.fires[i] == 0);
            assert(q.ticks[p].ranks[i] == 0);
        } else {
            assert(h.ranks[i] == 0);
        }
    }
    let end = q.ticks.len() as int;
    assert(z.ticks[end] == h);
    assert forall|i: int| 0 <= i < a.fires.len() && (a.fires[i] > 0 || fired(
        msg.acts,
        i,
    )) implies #[trigger] begun(z.ticks, i, end) by {
        if a.fires[i] > 0 {
            assert(q.fires[i] > 0);
            assert(begun(q.ticks, i, end - 1));
            let y = choose|y: int| 0 <= y <= end - 1 && begins(q.ticks, i, y);
            assert(z.ticks[y] == q.ticks[y]);
            assert(begins(z.ticks, i, y));
        } else {
            assert(begins(z.ticks, i, end));
        }
    }
    assert forall|i: int, p: int|
        #![trigger z.ticks[p].ranks[i]]
        0 <= p < z.ticks.len() && 0 <= i < z.ticks[p].ranks.len() && z.ticks[p].ranks[i]
            > 0 implies begun(z.ticks, i, p) by {
        if p < end {
            assert(z.ticks[p] == q.ticks[p]);
            assert(q.ticks[p].ranks[i] > 0);
            let y = choose|y: int| 0 <= y <= p && begins(q.ticks, i, y);
            assert(z.ticks[y] == q.ticks[y]);
            assert(begins(z.ticks, i, y));
        } else {
            assert(begun(z.ticks, i, end));
        }
    }
    assert forall|i: int|
        #![trigger z.fires[i]]
        0 <= i < z.fires.len() && z.fires[i] > 0 implies begun(z.ticks, i, z.ticks.len() - 1) by {
        assert(a.fires[i] > 0 || fired(msg.acts, i));
        assert(begun(z.ticks, i, end));
    }
}

/// First fires go on being spared while at each pass the ticks that hold one fit the backbone.
pub proof fn first_fires_stay_spared(t: TapeView, msg: MsgView)
    requires
        t.ok(),
        spared(t),
        open_to(t, msg),
        t.opened < 0x8000_0000_0000_0000,
        firsts_fit_on_pass(t, msg),
    ensures
        spared(absorbed(t, msg)),
{
    lemma_landed_spared(t, msg);
    lemma_landed_sound(t, msg);
    if landed(t, msg).ticks.len() == t.capacity {
        lemma_thinned_spared(landed(t, msg));
    }
}

/// The tick a node first fired on is never dropped while at each pass the ticks that hold a first fire
/// fit the backbone.
pub proof fn a_first_fire_survives(t: TapeView, msg: MsgView, p: int, i: int)
    requires
        t.ok(),
        spared(t),
        open_to(t, msg),
        t.opened < 0x8000_0000_0000_0000,
        firsts_fit_on_pass(t, msg),
        0 <= p < t.ticks.len(),
        0 <= i < t.ticks[p].ranks.len(),
        t.ticks[p].ranks[i] == FIRST,
    ensures
        absorbed(t, msg).ticks.contains(t.ticks[p]),
{
    let l = landed(t, msg);
    let z = absorbed(t, msg);
    lemma_landed_spared(t, msg);
    lemma_landed_sound(t, msg);
    lemma_absorbed_counts(t, msg);
    lemma_with_nodes(t, msg.meta);
    assert(t.ticks[p].ok(t.nodes()));
    assert(l.ticks[p] == t.ticks[p]);
    if l.ticks.len() == l.capacity {
        assert(l.ordered());
        lemma_thinned_spared(l);
        lemma_kept(l.ticks, whole(l), settled(l));
        crate::keeping::exponents_only_rise(l);
        assert(thinned(l).keep[i] < FIRST);
        assert(claims(l.ticks[p].ranks, settled(l), i));
        assert(retained(l.ticks[p], whole(l), settled(l)));
        assert(kept(l.ticks, whole(l), settled(l)).contains(l.ticks[p]));
    } else {
        assert(z.ticks[p] == t.ticks[p]);
    }
}

/// How many ticks node `i` fired on.
pub open spec fn fired_on(ticks: Seq<TickView>, i: int) -> nat
    decreases ticks.len(),
{
    if ticks.len() == 0 {
        0
    } else {
        fired_on(ticks.drop_last(), i) + if ticks.last().fires(i) {
            1nat
        } else {
            0nat
        }
    }
}

/// The ticks a node fired on are no more than its fires.
pub open spec fn tallied(t: TapeView) -> bool {
    forall|i: int|
        #![trigger t.fires[i]]
        0 <= i < t.fires.len() ==> fired_on(t.ticks, i) <= t.fires[i]
}

proof fn lemma_fired_on_kept(ticks: Seq<TickView>, from: nat, keep: Seq<u8>, i: int)
    ensures
        fired_on(kept(ticks, from, keep), i) <= fired_on(ticks, i),
    decreases ticks.len(),
{
    if ticks.len() > 0 {
        lemma_fired_on_kept(ticks.drop_last(), from, keep, i);
        let k = kept(ticks, from, keep);
        if retained(ticks.last(), from, keep) {
            assert(k.drop_last() =~= kept(ticks.drop_last(), from, keep));
        }
    }
}

/// A node claims no more of a prefix than the ticks it fired on.
proof fn lemma_share_fired(ticks: Seq<TickView>, n: nat, keep: Seq<u8>, i: int)
    requires
        n <= ticks.len(),
    ensures
        share(rows(ticks, n), keep, i) <= fired_on(ticks, i),
    decreases ticks.len(),
{
    if ticks.len() > 0 {
        let d = ticks.drop_last();
        if n < ticks.len() {
            lemma_share_fired(d, n, keep, i);
            assert(rows(d, n) =~= rows(ticks, n));
        } else {
            lemma_share_fired(d, (n - 1) as nat, keep, i);
            assert(rows(ticks, n).drop_last() =~= rows(d, (n - 1) as nat));
            assert(rows(ticks, n).last() == ticks.last().ranks);
        }
    }
}

/// A node unknown to every tick fired on none.
proof fn lemma_fired_on_unknown(ticks: Seq<TickView>, i: int)
    requires
        forall|p: int| #![trigger ticks[p]] 0 <= p < ticks.len() ==> ticks[p].ranks.len() <= i,
    ensures
        fired_on(ticks, i) == 0,
    decreases ticks.len(),
{
    if ticks.len() > 0 {
        let d = ticks.drop_last();
        assert forall|p: int| #![trigger d[p]] 0 <= p < d.len() implies d[p].ranks.len() <= i by {
            assert(ticks[p] == d[p]);
        }
        lemma_fired_on_unknown(d, i);
        assert(ticks[ticks.len() - 1].ranks.len() <= i);
    }
}

/// Tallies stay true.
pub proof fn tallies_stay_true(t: TapeView, msg: MsgView)
    requires
        t.ok(),
        tallied(t),
        open_to(t, msg),
        t.opened < 0x1_0000_0000_0000_0000,
    ensures
        tallied(landed(t, msg)),
        tallied(absorbed(t, msg)),
{
    let a = with_nodes(t, msg.meta);
    let l = landed(t, msg);
    let z = absorbed(t, msg);
    lemma_absorbed_counts(t, msg);
    lemma_noted_ok(t, msg);
    lemma_with_nodes(t, msg.meta);
    lemma_held_tick_ok(t, msg);
    let h = held_tick(t, msg);
    assert forall|i: int| #![trigger l.fires[i]] 0 <= i < l.fires.len() implies fired_on(l.ticks, i)
        <= l.fires[i] by {
        if i < t.nodes() {
            assert(fired_on(t.ticks, i) <= t.fires[i]);
            assert(a.fires[i] == t.fires[i]);
        } else {
            assert forall|p: int| #![trigger t.ticks[p]] 0 <= p < t.ticks.len() implies t.ticks[p].ranks.len()
                <= i by {
                assert(t.ticks[p].ok(t.nodes()));
            }
            lemma_fired_on_unknown(t.ticks, i);
        }
        assert(l.ticks.drop_last() =~= t.ticks);
        assert(l.ticks.last() == h);
        assert(h.ranks[i] <= FIRST);
    }
    assert forall|i: int| #![trigger z.fires[i]] 0 <= i < z.fires.len() implies fired_on(z.ticks, i)
        <= z.fires[i] by {
        lemma_fired_on_kept(l.ticks, whole(l), settled(l), i);
        assert(fired_on(l.ticks, i) <= l.fires[i]);
    }
}

/// The level at which every node's fires are cut down to node `i`'s own fits the backbone: node `i`
/// is within its max-min fair share.
pub open spec fn within_share(t: TapeView, i: int) -> bool {
    0 <= i < t.fires.len() && total(levelled(t.fires, t.fires[i])) <= t.capacity / 4
}

/// One absorption cannot take a fire from a node within its max-min fair share.
pub proof fn a_node_within_its_share_loses_nothing(t: TapeView, msg: MsgView, i: int)
    requires
        t.ok(),
        tallied(t),
        open_to(t, msg),
        t.opened < 0x1_0000_0000_0000_0000,
        within_share(absorbed(t, msg), i),
        i < t.nodes() ==> t.keep[i] == 0,
    ensures
        absorbed(t, msg).keep[i] == 0,
        forall|p: int|
            #![trigger t.ticks[p]]
            0 <= p < t.ticks.len() && t.ticks[p].fires(i) ==> absorbed(t, msg).ticks.contains(
                t.ticks[p],
            ),
{
    let l = landed(t, msg);
    let z = absorbed(t, msg);
    lemma_absorbed_counts(t, msg);
    lemma_landed_sound(t, msg);
    lemma_with_nodes(t, msg.meta);
    tallies_stay_true(t, msg);
    assert(l.keep[i] == 0);
    if l.ticks.len() == l.capacity {
        let w = whole(l);
        let n = under(l.ticks, w);
        assert(l.ordered());
        lemma_under(l.ticks, w);
        lemma_rows_ranked(l, n);
        let pre = rows(l.ticks, n);
        let f = z.fires[i];
        let s = shares(pre, l.keep);
        assert(at_most(levelled(s, f), levelled(z.fires, f))) by {
            assert forall|j: int|
                #![trigger levelled(s, f)[j]]
                0 <= j < levelled(s, f).len() implies levelled(s, f)[j] <= levelled(
                z.fires,
                f,
            )[j] by {
                lemma_share_fired(l.ticks, n, l.keep, j);
                assert(fired_on(l.ticks, j) <= l.fires[j]);
            }
        }
        lemma_total_at_most(levelled(s, f), levelled(z.fires, f));
        assert(share(pre, l.keep, i) <= f) by {
            lemma_share_fired(l.ticks, n, l.keep, i);
            assert(fired_on(l.ticks, i) <= l.fires[i]);
        }
        squeeze_is_fair(pre, l.keep, l.capacity / 4, i, f);
        crate::keeping::exponents_only_rise(l);
        lemma_kept(l.ticks, w, settled(l));
    }
    assert forall|p: int|
        #![trigger t.ticks[p]]
        0 <= p < t.ticks.len() && t.ticks[p].fires(i) implies z.ticks.contains(t.ticks[p]) by {
        assert(l.ticks[p] == t.ticks[p]);
        if l.ticks.len() == l.capacity {
            assert(claims(l.ticks[p].ranks, settled(l), i));
            assert(retained(l.ticks[p], whole(l), settled(l)));
        } else {
            assert(z.ticks[p] == t.ticks[p]);
        }
    }
}

/// Fires are only ever added, and so are nodes.
proof fn lemma_fires_grow(t: TapeView, msg: MsgView)
    requires
        t.ok(),
        open_to(t, msg),
    ensures
        t.fires.len() <= absorbed(t, msg).fires.len(),
        forall|j: int|
            #![trigger absorbed(t, msg).fires[j]]
            0 <= j < t.fires.len() ==> t.fires[j] <= absorbed(t, msg).fires[j],
{
    lemma_absorbed_counts(t, msg);
    lemma_with_nodes(t, msg.meta);
}

proof fn lemma_total_prefix(a: Seq<nat>, b: Seq<nat>)
    requires
        a.len() <= b.len(),
        forall|j: int| #![trigger a[j]] 0 <= j < a.len() ==> a[j] <= b[j],
    ensures
        total(a) <= total(b),
    decreases b.len(),
{
    if a.len() < b.len() {
        lemma_total_prefix(a, b.drop_last());
    } else {
        assert(at_most(a, b));
        lemma_total_at_most(a, b);
    }
}

/// A node within its share later was within it before.
proof fn lemma_share_earlier(t: TapeView, msg: MsgView, i: int)
    requires
        t.ok(),
        open_to(t, msg),
        0 <= i < t.fires.len(),
        within_share(absorbed(t, msg), i),
    ensures
        within_share(t, i),
{
    let z = absorbed(t, msg);
    lemma_absorbed_counts(t, msg);
    lemma_fires_grow(t, msg);
    let a = levelled(t.fires, t.fires[i]);
    let b = levelled(z.fires, z.fires[i]);
    assert forall|j: int| #![trigger a[j]] 0 <= j < a.len() implies a[j] <= b[j] by {
        assert(t.fires[j] <= z.fires[j]);
        assert(t.fires[i] <= z.fires[i]);
    }
    lemma_total_prefix(a, b);
}

/// The whole run of a node stays addressable as long as its fires fit its max-min fair share of a
/// quarter of the capacity: every tick it ever fired on is still held.
pub proof fn a_rare_node_keeps_every_fire(t: TapeView, msgs: Seq<MsgView>, i: int, k: int)
    requires
        t.ok(),
        !t.sealed,
        t.ticks.len() == 0,
        t.nodes() == 0,
        open_to_all(t, msgs),
        t.opened + msgs.len() < 0x1_0000_0000_0000_0000,
        within_share(absorbed_all(t, msgs), i),
        0 <= k < msgs.len(),
        fired(msgs[k].acts, i),
        i < absorbed_all(t, msgs.take(k + 1)).nodes(),
    ensures
        absorbed_all(t, msgs).ticks.contains(held_tick(absorbed_all(t, msgs.take(k)), msgs[k])),
        absorbed_all(t, msgs).keep[i] == 0,
{
    lemma_run_keeps(t, msgs, i, k);
}

/// One more than what the law says: the run so far is a tape with true tallies.
proof fn lemma_run_tallied(t: TapeView, msgs: Seq<MsgView>)
    requires
        t.ok(),
        !t.sealed,
        t.ticks.len() == 0,
        t.nodes() == 0,
        open_to_all(t, msgs),
        t.opened + msgs.len() < 0x1_0000_0000_0000_0000,
    ensures
        absorbed_all(t, msgs).ok(),
        !absorbed_all(t, msgs).sealed,
        tallied(absorbed_all(t, msgs)),
        absorbed_all(t, msgs).opened == t.opened + msgs.len(),
        absorbed_all(t, msgs).capacity == t.capacity,
    decreases msgs.len(),
{
    if msgs.len() > 0 {
        let d = msgs.drop_last();
        lemma_run_tallied(t, d);
        let u = absorbed_all(t, d);
        tallies_stay_true(u, msgs.last());
        absorbing_keeps_a_tape(u, msgs.last());
        lemma_noted_ok(u, msgs.last());
    }
}

/// While a node is within its share its exponent has never been raised.
proof fn lemma_run_unsqueezed(t: TapeView, msgs: Seq<MsgView>, i: int)
    requires
        t.ok(),
        !t.sealed,
        t.ticks.len() == 0,
        t.nodes() == 0,
        open_to_all(t, msgs),
        t.opened + msgs.len() < 0x1_0000_0000_0000_0000,
        within_share(absorbed_all(t, msgs), i),
    ensures
        absorbed_all(t, msgs).keep[i] == 0,
    decreases msgs.len(),
{
    lemma_run_tallied(t, msgs);
    if msgs.len() > 0 {
        let d = msgs.drop_last();
        let u = absorbed_all(t, d);
        lemma_run_tallied(t, d);
        if i < u.nodes() {
            lemma_share_earlier(u, msgs.last(), i);
            lemma_run_unsqueezed(t, d, i);
        }
        a_node_within_its_share_loses_nothing(u, msgs.last(), i);
    }
}

proof fn lemma_run_keeps(t: TapeView, msgs: Seq<MsgView>, i: int, k: int)
    requires
        t.ok(),
        !t.sealed,
        t.ticks.len() == 0,
        t.nodes() == 0,
        open_to_all(t, msgs),
        t.opened + msgs.len() < 0x1_0000_0000_0000_0000,
        within_share(absorbed_all(t, msgs), i),
        0 <= k < msgs.len(),
        fired(msgs[k].acts, i),
        i < absorbed_all(t, msgs.take(k + 1)).nodes(),
    ensures
        absorbed_all(t, msgs).ticks.contains(held_tick(absorbed_all(t, msgs.take(k)), msgs[k])),
        absorbed_all(t, msgs).keep[i] == 0,
        held_tick(absorbed_all(t, msgs.take(k)), msgs[k]).fires(i),
    decreases msgs.len(),
{
    let d = msgs.drop_last();
    let u = absorbed_all(t, d);
    let z = absorbed_all(t, msgs);
    let h = held_tick(absorbed_all(t, msgs.take(k)), msgs[k]);
    lemma_run_tallied(t, d);
    lemma_run_unsqueezed(t, msgs, i);
    if k == msgs.len() - 1 {
        assert(msgs.take(k) =~= d);
        assert(msgs.take(k + 1) =~= msgs);
        lemma_newest_held(u, msgs.last());
        lemma_held_tick_ok(u, msgs.last());
        lemma_noted_ok(u, msgs.last());
        assert(h.ranks[i] > 0);
    } else {
        assert(d.take(k) =~= msgs.take(k));
        assert(d.take(k + 1) =~= msgs.take(k + 1));
        assert(d[k] == msgs[k]);
        lemma_nodes_grow(t, d, k + 1);
        lemma_share_earlier(u, msgs.last(), i);
        lemma_run_keeps(t, d, i, k);
        a_node_within_its_share_loses_nothing(u, msgs.last(), i);
        let p = choose|p: int| 0 <= p < u.ticks.len() && u.ticks[p] == h;
        assert(u.ticks[p].fires(i));
    }
}

/// Nodes are only ever added.
proof fn lemma_nodes_grow(t: TapeView, msgs: Seq<MsgView>, k: int)
    requires
        t.ok(),
        !t.sealed,
        t.ticks.len() == 0,
        t.nodes() == 0,
        open_to_all(t, msgs),
        t.opened + msgs.len() < 0x1_0000_0000_0000_0000,
        0 <= k <= msgs.len(),
    ensures
        absorbed_all(t, msgs.take(k)).nodes() <= absorbed_all(t, msgs).nodes(),
    decreases msgs.len(),
{
    if k < msgs.len() {
        let d = msgs.drop_last();
        lemma_nodes_grow(t, d, k);
        assert(d.take(k) =~= msgs.take(k));
        lemma_run_tallied(t, d);
        lemma_absorbed_counts(absorbed_all(t, d), msgs.last());
    } else {
        assert(msgs.take(k) =~= msgs);
    }
}

/// How many thinning passes absorbing `msgs` takes.
pub open spec fn passes(t: TapeView, msgs: Seq<MsgView>) -> nat
    decreases msgs.len(),
{
    if msgs.len() == 0 {
        0
    } else {
        let l = landed(absorbed_all(t, msgs.drop_last()), msgs.last());
        passes(t, msgs.drop_last()) + if l.ticks.len() == l.capacity {
            1nat
        } else {
            0nat
        }
    }
}

/// One pass per quarter of the buffer: absorbing no more ticks than a pass leaves room for takes at
/// most one.
pub proof fn a_pass_lasts_a_quarter(t: TapeView, msgs: Seq<MsgView>)
    requires
        t.ok(),
        open_to_all(t, msgs),
        t.opened + msgs.len() < 0x1_0000_0000_0000_0000,
        msgs.len() <= t.capacity / 4,
    ensures
        passes(t, msgs) <= 1,
{
    lemma_batch(t, msgs);
}

/// A batch no wider than [`batch_width`] holds at most one thinning pass, which is what the depth of
/// the way back to the recorder rests on.
pub proof fn a_batch_holds_one_pass(t: TapeView, msgs: Seq<MsgView>)
    requires
        t.ok(),
        open_to_all(t, msgs),
        t.opened + msgs.len() < 0x1_0000_0000_0000_0000,
        msgs.len() <= batch_width(t.capacity),
    ensures
        passes(t, msgs) <= 1,
{
    a_pass_lasts_a_quarter(t, msgs);
}

proof fn lemma_batch(t: TapeView, msgs: Seq<MsgView>)
    requires
        t.ok(),
        open_to_all(t, msgs),
        t.opened + msgs.len() < 0x1_0000_0000_0000_0000,
        msgs.len() <= t.capacity / 4,
    ensures
        passes(t, msgs) <= 1,
        absorbed_all(t, msgs).ok(),
        absorbed_all(t, msgs).capacity == t.capacity,
        absorbed_all(t, msgs).opened == t.opened + msgs.len(),
        passes(t, msgs) == 1 ==> absorbed_all(t, msgs).ticks.len() + t.capacity / 4
            < t.capacity + msgs.len(),
    decreases msgs.len(),
{
    if msgs.len() > 0 {
        let d = msgs.drop_last();
        let u = absorbed_all(t, d);
        let m = msgs.last();
        lemma_batch(t, d);
        absorbing_keeps_a_tape(u, m);
        lemma_absorbed_counts(u, m);
        lemma_landed_sound(u, m);
        crate::keeping::a_pass_leaves_a_quarter_free(landed(u, m));
    }
}

/// The tick message `k` of the run becomes.
pub open spec fn tick_of(t: TapeView, msgs: Seq<MsgView>, k: int) -> TickView {
    held_tick(absorbed_all(t, msgs.take(k)), msgs[k])
}

/// On how many ticks of the run some node fires for the first time.
pub open spec fn openings(t: TapeView, msgs: Seq<MsgView>) -> nat
    decreases msgs.len(),
{
    if msgs.len() == 0 {
        0
    } else {
        openings(t, msgs.drop_last()) + if debut(
            held_tick(absorbed_all(t, msgs.drop_last()), msgs.last()).ranks,
        ) {
            1nat
        } else {
            0nat
        }
    }
}

/// The run but for the newest half of a buffer.
pub open spec fn aged(t: TapeView, msgs: Seq<MsgView>) -> Seq<MsgView> {
    if msgs.len() <= t.capacity / 2 {
        Seq::empty()
    } else {
        msgs.take(msgs.len() - t.capacity / 2)
    }
}

proof fn lemma_openings_grow(t: TapeView, msgs: Seq<MsgView>, k: int)
    requires
        0 <= k <= msgs.len(),
    ensures
        openings(t, msgs.take(k)) <= openings(t, msgs),
    decreases msgs.len(),
{
    if k < msgs.len() {
        lemma_openings_grow(t, msgs.drop_last(), k);
        assert(msgs.drop_last().take(k) =~= msgs.take(k));
    } else {
        assert(msgs.take(k) =~= msgs);
    }
}

/// What the tape holds of the ticks with first fires is at most what the run had of them.
proof fn lemma_openings_held(t: TapeView, msgs: Seq<MsgView>, c: nat)
    requires
        t.ok(),
        !t.sealed,
        t.ticks.len() == 0,
        t.nodes() == 0,
        open_to_all(t, msgs),
        msgs.len() < 0x1_0000_0000_0000_0000,
        c <= msgs.len(),
    ensures
        debuts_before(absorbed_all(t, msgs).ticks, c) <= openings(t, msgs.take(c as int)),
    decreases msgs.len(),
{
    assert(t.ordered());
    assert(t.opened == 0);
    if msgs.len() > 0 {
        let d = msgs.drop_last();
        let u = absorbed_all(t, d);
        let m = msgs.last();
        let z = absorbed(u, m);
        lemma_run_tallied(t, d);
        lemma_absorbed_counts(u, m);
        let l = landed(u, m);
        assert(l.ticks.drop_last() =~= u.ticks);
        assert(l.ticks.last() == held_tick(u, m));
        let low: nat = if c < msgs.len() {
            c
        } else {
            d.len()
        };
        lemma_debuts_kept(l.ticks, whole(l), settled(l), c);
        lemma_openings_held(t, d, low);
        if c < msgs.len() {
            assert(d.take(c as int) =~= msgs.take(c as int));
        } else {
            lemma_debuts_all(u.ticks, d.len(), c);
            assert(d.take(d.len() as int) =~= d);
            assert(msgs.take(c as int) =~= msgs);
        }
    }
}

/// A bound no id reaches counts every tick.
proof fn lemma_debuts_all(ticks: Seq<TickView>, b: nat, c: nat)
    requires
        b <= c,
        forall|p: int| #![trigger ticks[p]] 0 <= p < ticks.len() ==> ticks[p].abs < b,
    ensures
        debuts_before(ticks, b) == debuts_before(ticks, c),
    decreases ticks.len(),
{
    if ticks.len() > 0 {
        let d = ticks.drop_last();
        assert forall|p: int| #![trigger d[p]] 0 <= p < d.len() implies d[p].abs < b by {
            assert(ticks[p] == d[p]);
        }
        lemma_debuts_all(d, b, c);
        assert(ticks[ticks.len() - 1].abs < b);
    }
}

/// The ticks with first fires that a pass could drop, once the run's last tick is on the tape, are no
/// more than those of the run but for its newest half of a buffer.
proof fn lemma_run_fits(t: TapeView, msgs: Seq<MsgView>)
    requires
        t.ok(),
        !t.sealed,
        t.ticks.len() == 0,
        t.nodes() == 0,
        open_to_all(t, msgs),
        0 < msgs.len() < 0x8000_0000_0000_0000,
        openings(t, aged(t, msgs)) <= t.capacity / 4,
    ensures
        firsts_fit(landed(absorbed_all(t, msgs.drop_last()), msgs.last())),
{
    let d = msgs.drop_last();
    let u = absorbed_all(t, d);
    let l = landed(u, msgs.last());
    assert(t.ordered());
    lemma_run_tallied(t, d);
    lemma_absorbed_counts(u, msgs.last());
    assert(l.ticks.drop_last() =~= u.ticks);
    lemma_openings_held(t, d, whole(l));
    assert(aged(t, msgs) =~= d.take(whole(l) as int));
}

/// At every pass of the run the ticks that hold a first fire fit the backbone.
pub open spec fn firsts_fit_on_passes(t: TapeView, msgs: Seq<MsgView>) -> bool
    decreases msgs.len(),
{
    msgs.len() > 0 ==> firsts_fit_on_passes(t, msgs.drop_last()) && firsts_fit_on_pass(
        absorbed_all(t, msgs.drop_last()),
        msgs.last(),
    )
}

/// The ticks with first fires fit at every pass while those of the run, the newest half of a buffer
/// aside, are no more than a quarter of the capacity.
pub proof fn few_openings_fit_on_passes(t: TapeView, msgs: Seq<MsgView>)
    requires
        t.ok(),
        !t.sealed,
        t.ticks.len() == 0,
        t.nodes() == 0,
        open_to_all(t, msgs),
        msgs.len() < 0x8000_0000_0000_0000,
        openings(t, aged(t, msgs)) <= t.capacity / 4,
    ensures
        firsts_fit_on_passes(t, msgs),
    decreases msgs.len(),
{
    if msgs.len() > 0 {
        let d = msgs.drop_last();
        lemma_openings_grow(t, aged(t, msgs), aged(t, d).len() as int);
        assert(aged(t, msgs).take(aged(t, d).len() as int) =~= aged(t, d));
        few_openings_fit_on_passes(t, d);
        lemma_run_fits(t, msgs);
    }
}

proof fn lemma_run_spared(t: TapeView, msgs: Seq<MsgView>)
    requires
        t.ok(),
        !t.sealed,
        t.ticks.len() == 0,
        t.nodes() == 0,
        open_to_all(t, msgs),
        msgs.len() < 0x8000_0000_0000_0000,
        firsts_fit_on_passes(t, msgs),
    ensures
        absorbed_all(t, msgs).ok(),
        absorbed_all(t, msgs).opened == msgs.len(),
        absorbed_all(t, msgs).capacity == t.capacity,
        spared(absorbed_all(t, msgs)),
    decreases msgs.len(),
{
    assert(t.ordered());
    assert(t.opened == 0);
    lemma_run_tallied(t, msgs);
    if msgs.len() > 0 {
        let d = msgs.drop_last();
        lemma_run_tallied(t, d);
        lemma_run_spared(t, d);
        first_fires_stay_spared(absorbed_all(t, d), msgs.last());
    } else {
        assert(spared(t));
    }
}

/// Every node's first fire stays addressable for the whole run while at each of its passes the ticks
/// that hold a first fire fit the backbone.
pub proof fn every_first_fire_stays(t: TapeView, msgs: Seq<MsgView>, i: int, k: int)
    requires
        t.ok(),
        !t.sealed,
        t.ticks.len() == 0,
        t.nodes() == 0,
        open_to_all(t, msgs),
        msgs.len() < 0x8000_0000_0000_0000,
        firsts_fit_on_passes(t, msgs),
        0 <= k < msgs.len(),
        0 <= i < tick_of(t, msgs, k).ranks.len(),
        tick_of(t, msgs, k).ranks[i] == FIRST,
    ensures
        absorbed_all(t, msgs).ticks.contains(tick_of(t, msgs, k)),
    decreases msgs.len(),
{
    let d = msgs.drop_last();
    let u = absorbed_all(t, d);
    let m = msgs.last();
    let h = tick_of(t, msgs, k);
    lemma_run_tallied(t, d);
    if k == msgs.len() - 1 {
        assert(msgs.take(k) =~= d);
        lemma_newest_held(u, m);
    } else {
        assert(d.take(k) =~= msgs.take(k));
        assert(d[k] == msgs[k]);
        lemma_run_spared(t, d);
        every_first_fire_stays(t, d, i, k);
        let p = choose|p: int| 0 <= p < u.ticks.len() && u.ticks[p] == h;
        a_first_fire_survives(u, m, p, i);
    }
}

/// How many nodes have fired.
pub open spec fn started(fires: Seq<nat>) -> nat
    decreases fires.len(),
{
    if fires.len() == 0 {
        0
    } else {
        started(fires.drop_last()) + if fires.last() > 0 {
            1nat
        } else {
            0nat
        }
    }
}

proof fn lemma_started(was: Seq<nat>, now: Seq<nat>)
    requires
        was.len() <= now.len(),
        forall|i: int| #![trigger was[i]] 0 <= i < was.len() && was[i] > 0 ==> now[i] > 0,
    ensures
        started(was) <= started(now) <= now.len(),
        (exists|i: int|
            #![trigger now[i]]
            0 <= i < now.len() && now[i] > 0 && (i < was.len() ==> was[i] == 0)) ==> started(was)
            < started(now),
    decreases now.len(),
{
    if now.len() > 0 {
        let n = now.drop_last();
        if was.len() < now.len() {
            lemma_started(was, n);
        } else {
            let w = was.drop_last();
            assert forall|i: int| #![trigger w[i]] 0 <= i < w.len() && w[i] > 0 implies n[i] > 0 by {
                assert(was[i] > 0);
            }
            lemma_started(w, n);
            assert(was[was.len() - 1] == was.last());
        }
        if exists|i: int|
            #![trigger now[i]]
            0 <= i < now.len() && now[i] > 0 && (i < was.len() ==> was[i] == 0) {
            let i = choose|i: int|
                #![trigger now[i]]
                0 <= i < now.len() && now[i] > 0 && (i < was.len() ==> was[i] == 0);
            if i < now.len() - 1 {
                assert(n[i] > 0);
            }
        }
    }
}

proof fn lemma_openings_started(t: TapeView, msgs: Seq<MsgView>)
    requires
        t.ok(),
        !t.sealed,
        t.ticks.len() == 0,
        t.nodes() == 0,
        open_to_all(t, msgs),
        msgs.len() < 0x8000_0000_0000_0000,
    ensures
        openings(t, msgs) <= started(absorbed_all(t, msgs).fires),
    decreases msgs.len(),
{
    assert(t.ordered());
    if msgs.len() > 0 {
        let d = msgs.drop_last();
        let u = absorbed_all(t, d);
        let m = msgs.last();
        let h = held_tick(u, m);
        lemma_openings_started(t, d);
        lemma_run_tallied(t, d);
        lemma_absorbed_counts(u, m);
        lemma_with_nodes(u, m.meta);
        lemma_fires_grow(u, m);
        lemma_noted_ok(u, m);
        let a = with_nodes(u, m.meta);
        let z = absorbed(u, m);
        assert forall|i: int| #![trigger u.fires[i]] 0 <= i < u.fires.len() && u.fires[i]
            > 0 implies z.fires[i] > 0 by {
            assert(u.fires[i] <= z.fires[i]);
        }
        lemma_started(u.fires, z.fires);
        if debut(h.ranks) {
            let i = choose|i: int|
                #![trigger h.ranks[i]]
                0 <= i < h.ranks.len() && h.ranks[i] == FIRST;
            assert(a.fires[i] <= a.opened);
            lemma_halvings_u64(a.fires[i]);
            if a.fires[i] > 0 {
                lemma_rank_bound(a.fires[i]);
            }
            assert(z.fires[i] > 0);
        }
    }
}

/// A run has no more ticks with first fires than the graph has nodes, so a graph of no more nodes than
/// a quarter of the capacity keeps every first fire.
pub proof fn few_nodes_keep_their_firsts(t: TapeView, msgs: Seq<MsgView>)
    requires
        t.ok(),
        !t.sealed,
        t.ticks.len() == 0,
        t.nodes() == 0,
        open_to_all(t, msgs),
        msgs.len() < 0x8000_0000_0000_0000,
        absorbed_all(t, msgs).nodes() <= t.capacity / 4,
    ensures
        openings(t, aged(t, msgs)) <= t.capacity / 4,
        firsts_fit_on_passes(t, msgs),
{
    lemma_openings_started(t, msgs);
    lemma_run_tallied(t, msgs);
    lemma_openings_grow(t, msgs, aged(t, msgs).len() as int);
    assert(msgs.take(aged(t, msgs).len() as int) =~= aged(t, msgs));
    let f = absorbed_all(t, msgs).fires;
    lemma_started(f, f);
    few_openings_fit_on_passes(t, msgs);
}

/// A run many times the capacity is still walkable from its start: while first fires are kept, a first
/// tick on which some node fired is the first tick held.
pub proof fn the_front_stays_addressable(t: TapeView, msgs: Seq<MsgView>, i: int)
    requires
        t.ok(),
        !t.sealed,
        t.ticks.len() == 0,
        t.nodes() == 0,
        open_to_all(t, msgs),
        msgs.len() > 0,
        msgs.len() < 0x8000_0000_0000_0000,
        firsts_fit_on_passes(t, msgs),
        fired(msgs[0].acts, i),
        i < absorbed_all(t, msgs.take(1)).nodes(),
    ensures
        absorbed_all(t, msgs).ticks.len() > 0,
        absorbed_all(t, msgs).ticks[0] == held_tick(t, msgs[0]),
        absorbed_all(t, msgs).ticks[0].abs == 0,
{
    assert(t.ordered());
    lemma_run_spared(t, msgs);
    let one = msgs.take(1);
    assert(one.drop_last() =~= Seq::empty());
    assert(msgs.take(0) =~= Seq::empty());
    assert(one.last() == msgs[0]);
    assert(absorbed_all(t, one) == absorbed(t, msgs[0])) by {
        assert(absorbed_all(t, one.drop_last()) == t);
    }
    lemma_prefix_open(t, msgs, 1);
    lemma_absorbed_counts(t, msgs[0]);
    lemma_with_nodes(t, msgs[0].meta);
    assert(tick_of(t, msgs, 0).ranks[i] == FIRST);
    every_first_fire_stays(t, msgs, i, 0);
    let z = absorbed_all(t, msgs);
    let p = choose|p: int| 0 <= p < z.ticks.len() && z.ticks[p] == held_tick(t, msgs[0]);
    assert(z.ordered());
    if p > 0 {
        assert(z.ticks[0].abs < z.ticks[p].abs);
    }
}

proof fn lemma_prefix_open(t: TapeView, msgs: Seq<MsgView>, k: int)
    requires
        open_to_all(t, msgs),
        0 <= k <= msgs.len(),
    ensures
        open_to_all(t, msgs.take(k)),
    decreases msgs.len(),
{
    if k < msgs.len() {
        lemma_prefix_open(t, msgs.drop_last(), k);
        assert(msgs.drop_last().take(k) =~= msgs.take(k));
    } else {
        assert(msgs.take(k) =~= msgs);
    }
}

} // verus!
