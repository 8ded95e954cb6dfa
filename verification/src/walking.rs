//! The laws of walking a tape.
use vstd::prelude::*;

use crate::api_types::FrameView;
use crate::keeping::{
    absorbing_keeps_a_tape, climbing, lemma_kept, lemma_landed_sound, lemma_under,
    lemma_with_nodes,
};
use crate::model::{
    absorbed, absorbed_all, fired, landed, open_to, open_to_all, settled, under, whole, MsgView,
    TapeView, TickView,
};
use crate::replay::{first_hit, held_at, hit, latest, least, WatchView};

verus! {

/// As many ticks are under the id after a position as the position says.
proof fn lemma_under_at(ticks: Seq<TickView>, p: int)
    requires
        climbing(ticks),
        0 <= p < ticks.len(),
    ensures
        under(ticks, ticks[p].abs + 1) == p + 1,
{
    let c = ticks[p].abs + 1;
    lemma_under(ticks, c);
    let u = under(ticks, c) as int;
    if u <= p {
        assert(ticks[p].abs >= c);
    }
    if u > p + 1 {
        assert(ticks[p].abs < ticks[p + 1].abs);
        assert(ticks[p + 1].abs < c);
    }
}

/// A cursor parked on a position names it: parking is exact up to the last addressable position.
pub proof fn parking_is_exact(t: TapeView, p: nat)
    requires
        t.ok(),
        t.last() is Some,
    ensures
        t.parked(p).ok(),
        t.parked(p).last() == t.last(),
        t.parked(p).pos() == Some(least(p, t.last()->Some_0)),
        t.parked(p).frame().tick == t.ticks[least(p, t.last()->Some_0) as int].abs + 1,
{
    assert(t.climbs());
    let q = least(p, t.last()->Some_0);
    lemma_under_at(t.ticks, q as int);
    crate::tape::lemma_same_but_cost(t, t.parked(p));
}

/// A step moves on by one retained tick, and stands still only on the last addressable one.
pub proof fn a_step_moves_on(t: TapeView)
    requires
        t.ok(),
        t.pos() is Some,
    ensures
        t.pos()->Some_0 < t.last()->Some_0 ==> t.stepped(1).pos() == Some(t.pos()->Some_0 + 1)
            && t.stepped(1).frame().tick > t.frame().tick,
        t.pos()->Some_0 == t.last()->Some_0 ==> t.stepped(1).frame().tick == t.frame().tick,
{
    let p = t.pos()->Some_0;
    assert(t.climbs());
    parking_is_exact(t, p + 1);
    if p < t.last()->Some_0 {
        assert(t.ticks[p as int].abs < t.ticks[p as int + 1].abs);
    }
}

/// Stepping is additive: `m` retained ticks and then `n` are `m + n`.
pub proof fn steps_add_up(t: TapeView, m: nat, n: nat)
    requires
        t.ok(),
        t.pos() is Some,
    ensures
        t.stepped(m).stepped(n) == t.stepped(m + n),
{
    parking_is_exact(t, t.pos()->Some_0 + m);
}

/// The tape after `k` single steps from its start.
pub open spec fn walked(t: TapeView, k: nat) -> TapeView
    decreases k,
{
    if k == 0 {
        t.sought(0)
    } else {
        walked(t, (k - 1) as nat).stepped(1)
    }
}

/// Walking from the start visits every addressable position in order, and nothing else.
pub proof fn a_walk_visits_every_position(t: TapeView, k: nat)
    requires
        t.ok(),
        t.last() is Some,
    ensures
        walked(t, k).pos() == Some(least(k, t.last()->Some_0)),
        walked(t, k).frame().tick == t.ticks[least(k, t.last()->Some_0) as int].abs + 1,
        walked(t, k).ok(),
        walked(t, k) == (TapeView { cursor: walked(t, k).cursor, ..t }),
    decreases k,
{
    assert(t.climbs());
    if k == 0 {
        lemma_under(t.ticks, 0);
        assert(under(t.ticks, 0) == 0) by {
            if under(t.ticks, 0) > 0 {
                assert(t.ticks[0].abs < 0);
            }
        }
        parking_is_exact(t, 0);
    } else {
        let w = walked(t, (k - 1) as nat);
        a_walk_visits_every_position(t, (k - 1) as nat);
        parking_is_exact(w, w.pos()->Some_0 + 1);
    }
}

/// A seek lands on the nearest retained tick at or below what it names: that tick is not past it
/// unless it is the front, and the next one is unless there is none.
pub proof fn a_seek_lands_nearest(t: TapeView, tick: nat)
    requires
        t.ok(),
        t.last() is Some,
    ensures
        ({
            let s = t.sought(tick);
            let p = s.pos()->Some_0;
            &&& s.pos() is Some
            &&& p <= t.last()->Some_0
            &&& s.frame().tick == t.ticks[p as int].abs + 1
            &&& t.ticks[p as int].abs + 1 <= tick || p == 0
            &&& p < t.last()->Some_0 ==> t.ticks[p as int + 1].abs + 1 > tick
        }),
{
    assert(t.climbs());
    lemma_under(t.ticks, tick);
    parking_is_exact(t, t.nearest(tick));
    let u = under(t.ticks, tick) as int;
    let p = t.sought(tick).pos()->Some_0 as int;
    if u > 0 {
        assert(t.ticks[p].abs < tick);
    }
    if p < t.last()->Some_0 {
        if u == 0 {
            assert(t.ticks[0].abs >= tick);
            assert(t.ticks[0].abs < t.ticks[1].abs);
        } else {
            assert(t.ticks[p + 1].abs >= tick);
        }
    }
}

/// Seeking twice is seeking once, and seeking the tick one stands on stays there.
pub proof fn a_seek_settles(t: TapeView, tick: nat)
    requires
        t.ok(),
    ensures
        t.sought(tick).sought(tick) == t.sought(tick),
        t.pos() is Some ==> t.sought(t.frame().tick).frame() == t.frame(),
{
    assert(t.climbs());
    if t.pos() is Some {
        let p = t.pos()->Some_0;
        lemma_under_at(t.ticks, p as int);
        parking_is_exact(t, p);
        let s = t.sought(t.frame().tick);
        assert(s.pos() == Some(p));
        assert(s.frame() =~= t.frame()) by {
            let a = s.frame().activations;
            let b = t.frame().activations;
            assert(a =~= b) by {
                assert forall|i: int| 0 <= i < a.len() implies a[i] == b[i] by {
                    assert(s.standing(i, p) == t.standing(i, p));
                    assert(s.activation(i, p) == t.activation(i, p));
                }
            }
        }
    }
}

/// The newest of some ticks at or before a time: it is, where any is, and none after it is.
proof fn lemma_latest(ticks: Seq<TickView>, ts_ns: i64)
    ensures
        match latest(ticks, ts_ns) {
            Some(p) => p < ticks.len() && ticks[p as int].ts_ns <= ts_ns && forall|q: int|
                #![trigger ticks[q]]
                p < q < ticks.len() ==> ticks[q].ts_ns > ts_ns,
            None => forall|q: int| #![trigger ticks[q]] 0 <= q < ticks.len() ==> ticks[q].ts_ns
                > ts_ns,
        },
    decreases ticks.len(),
{
    if ticks.len() > 0 && ticks.last().ts_ns > ts_ns {
        let d = ticks.drop_last();
        lemma_latest(d, ts_ns);
        let n = ticks.len() as int;
        match latest(ticks, ts_ns) {
            Some(p) => {
                assert(d[p as int] == ticks[p as int]);
                assert forall|q: int| #![trigger ticks[q]] p < q < n implies ticks[q].ts_ns
                    > ts_ns by {
                    if q < n - 1 {
                        assert(d[q] == ticks[q]);
                    }
                }
            },
            None => {
                assert forall|q: int| #![trigger ticks[q]] 0 <= q < n implies ticks[q].ts_ns
                    > ts_ns by {
                    if q < n - 1 {
                        assert(d[q] == ticks[q]);
                    }
                }
            },
        }
    }
}

/// A seek by time lands on the newest addressable tick at or before that time, and no addressable tick
/// after it is at or before it; a time before all of them is the front.
pub proof fn a_seek_by_time_lands_newest(t: TapeView, ts_ns: i64)
    requires
        t.ok(),
        t.last() is Some,
    ensures
        ({
            let s = t.sought_ts(ts_ns);
            let l = t.last()->Some_0;
            let p = s.pos()->Some_0;
            &&& s.pos() is Some
            &&& p <= l
            &&& s.frame().tick == t.ticks[p as int].abs + 1
            &&& s.frame().ts_ns == t.ticks[p as int].ts_ns
            &&& t.ticks[p as int].ts_ns <= ts_ns || (p == 0 && t.ticks[0].ts_ns > ts_ns)
            &&& forall|q: int| #![trigger t.ticks[q]] p < q <= l ==> t.ticks[q].ts_ns > ts_ns
        }),
{
    let seen = t.addressable().ticks;
    let l = t.last()->Some_0;
    lemma_latest(seen, ts_ns);
    let to: nat = match latest(seen, ts_ns) {
        Some(p) => p,
        None => 0,
    };
    parking_is_exact(t, to);
    assert(seen[to as int] == t.ticks[to as int]);
    assert forall|q: int| #![trigger t.ticks[q]] to < q <= l implies t.ticks[q].ts_ns > ts_ns by {
        assert(seen[q] == t.ticks[q]);
    }
}

/// The first hit is one, it is in range, and nothing before it is.
pub proof fn a_search_stops_at_the_first_hit(
    ticks: Seq<TickView>,
    ws: Seq<WatchView>,
    from: nat,
    last: nat,
)
    ensures
        match first_hit(ticks, ws, from, last) {
            Some(q) => from <= q <= last && hit(ticks[q as int], ws) && forall|p: int|
                #![trigger ticks[p]]
                from <= p < q ==> !hit(ticks[p], ws),
            None => forall|p: int| #![trigger ticks[p]] from <= p <= last ==> !hit(ticks[p], ws),
        },
    decreases last + 1 - from,
{
    if from <= last && !hit(ticks[from as int], ws) {
        a_search_stops_at_the_first_hit(ticks, ws, from + 1, last);
    }
}

/// A search that finds nothing on a sealed tape is an answer, not a wait, and leaves the cursor where
/// it was.
pub proof fn a_search_that_finds_nothing_stays_put(t: TapeView, ws: Seq<WatchView>)
    requires
        t.ok(),
        t.sealed,
        t.scan_hit(ws) is None,
    ensures
        t.scanned(ws) == t,
        t.scan_frame(ws) == (FrameView { found: false, ..t.frame() }),
{
}

/// A search that finds something lands on a tick past the cursor that is a hit.
pub proof fn a_search_lands_on_its_hit(t: TapeView, ws: Seq<WatchView>)
    requires
        t.ok(),
        t.scan_hit(ws) is Some,
    ensures
        t.scanned(ws).pos() == t.scan_hit(ws),
        hit(t.ticks[t.scan_hit(ws)->Some_0 as int], ws),
        t.scan_frame(ws).found,
        !t.scan_frame(ws).pending,
        t.scan_frame(ws).tick > t.frame().tick,
{
    let p = t.pos()->Some_0;
    let l = t.last()->Some_0;
    assert(t.climbs());
    a_search_stops_at_the_first_hit(t.ticks, ws, p + 1, l);
    let q = t.scan_hit(ws)->Some_0;
    parking_is_exact(t, q);
    assert(t.ticks[p as int].abs < t.ticks[q as int].abs);
}

/// A search by name that finds something lands on a tick the node fired on.
pub proof fn a_search_by_name_lands_on_a_fire(t: TapeView, node: Seq<char>, i: nat)
    requires
        t.ok(),
        t.until(node) == Some(seq![WatchView { node: i, was: None }]),
        t.scan_hit(t.until(node)->Some_0) is Some,
    ensures
        fired(
            t.ticks[t.scanned(t.until(node)->Some_0).pos()->Some_0 as int].acts,
            i as int,
        ),
{
    let ws = t.until(node)->Some_0;
    a_search_lands_on_its_hit(t, ws);
    assert(ws[0].node == i);
}

/// A sealed tape never answers that more may come.
pub proof fn a_sealed_tape_never_waits(
    t: TapeView,
    n: nat,
    tick: nat,
    ts_ns: i64,
    ws: Seq<WatchView>,
)
    requires
        t.sealed,
    ensures
        !t.frame().pending,
        !t.step_pending(n),
        !t.seek_pending(tick),
        !t.seek_ts_pending(ts_ns),
        !t.scan_frame(ws).pending,
{
}

/// The tick a frame names less its gap is the retained tick before it, zero at the front: the gaps of
/// a walk cover the run without overlap.
pub proof fn gaps_tile_the_run(t: TapeView)
    requires
        t.ok(),
        t.pos() is Some,
    ensures
        t.frame().gap >= 1,
        t.frame().tick - t.frame().gap == if t.pos()->Some_0 == 0 {
            0
        } else {
            t.ticks[t.pos()->Some_0 - 1].abs + 1
        },
{
    let p = t.pos()->Some_0;
    assert(t.climbs());
    if p > 0 {
        assert(t.ticks[p - 1].abs < t.ticks[p as int].abs);
    }
}

/// Within the whole stretch a step covers exactly one tick.
pub proof fn the_whole_stretch_is_tick_exact(t: TapeView, j: int)
    requires
        t.ok(),
        crate::retention::whole_tail(t),
        0 <= j,
        j + 1 < crate::retention::tail_len(t),
    ensures
        t.gap((t.ticks.len() - 1 - j) as nat) == 1,
{
    let n = t.ticks.len() as int;
    assert(crate::retention::from_newest(t.ticks, j).abs == t.opened - 1 - j);
    assert(crate::retention::from_newest(t.ticks, j + 1).abs == t.opened - 1 - (j + 1));
}

/// A graph is shown exactly where there is a frame behind it: it is empty as long as the total is zero.
pub proof fn a_graph_is_shown_with_the_first_frame(t: TapeView)
    requires
        t.nodes() > 0,
    ensures
        t.outline().len() == 0 <==> t.frame().total == 0,
        t.outline().len() > 0 ==> t.outline().len() == t.nodes(),
{
}

/// A quiet node shows the value of its newest fire at or before the cursor.
pub proof fn a_quiet_node_shows_its_last_fire(ticks: Seq<TickView>, i: int, p: int)
    requires
        p < ticks.len(),
    ensures
        match held_at(ticks, i, p) {
            Some(q) => q <= p && ticks[q as int].fires(i) && forall|x: int|
                #![trigger ticks[x]]
                q < x <= p ==> !ticks[x].fires(i),
            None => forall|x: int| #![trigger ticks[x]] 0 <= x <= p ==> !ticks[x].fires(i),
        },
    decreases p + 1,
{
    if p >= 0 && !ticks[p].fires(i) {
        a_quiet_node_shows_its_last_fire(ticks, i, p - 1);
    }
}

/// What stands at a tick of a recording: a node that fired on it shows what it fired with, a quiet one
/// what it last fired with, and one that never fired by then shows its empty act.
pub proof fn what_stands_is_the_last_fire(t: TapeView, i: int, p: nat)
    requires
        t.sound(),
        p < t.ticks.len(),
        0 <= i < t.ticks[p as int].acts.len(),
    ensures
        fired(t.ticks[p as int].acts, i) ==> t.standing(i, p) == t.ticks[p as int].acts[i],
        !fired(t.ticks[p as int].acts, i) ==> match held_at(t.ticks, i, p as int) {
            Some(q) => q < p && fired(t.ticks[q as int].acts, i) && t.standing(i, p)
                == t.ticks[q as int].acts[i],
            None => t.standing(i, p) == t.ticks[p as int].acts[i] && t.standing(i, p).vals is None,
        },
{
    a_quiet_node_shows_its_last_fire(t.ticks, i, p as int);
    match held_at(t.ticks, i, p as int) {
        Some(q) => {
            assert(t.ticks[q as int].ok(t.nodes()));
            assert(t.ticks[q as int].ranks[i] > 0);
        },
        None => {},
    }
}

/// Absorbing leaves the cursor alone: whatever a pass drops around it, a parked cursor goes on showing
/// the tick it names for as long as that tick is held.
pub proof fn absorbing_leaves_the_cursor(t: TapeView, msg: MsgView)
    requires
        t.ok(),
        open_to(t, msg),
        t.opened < 0x1_0000_0000_0000_0000,
    ensures
        absorbed(t, msg).cursor == t.cursor,
        t.pos() is Some && t.cursor == t.frame().tick && absorbed(t, msg).ticks.contains(
            t.ticks[t.pos()->Some_0 as int],
        ) ==> absorbed(t, msg).frame().tick == t.frame().tick,
{
    let u = absorbed(t, msg);
    absorbing_keeps_a_tape(t, msg);
    lemma_with_nodes(t, msg.meta);
    if t.pos() is Some && t.cursor == t.frame().tick && u.ticks.contains(
        t.ticks[t.pos()->Some_0 as int],
    ) {
        assert(u.climbs());
        assert(t.climbs());
        let p = t.pos()->Some_0 as int;
        let k = choose|k: int| 0 <= k < u.ticks.len() && u.ticks[k] == t.ticks[p];
        let end = t.ticks.len() - 1;
        if p < end {
            assert(t.ticks[p].abs < t.ticks[end].abs);
        }
        assert(k < u.ticks.len() - 1);
        lemma_under_at(u.ticks, k);
    }
}

/// A seek is absolute: where it goes does not depend on where the cursor was.
pub proof fn a_seek_is_absolute(t: TapeView, c: nat, tick: nat, ts_ns: i64)
    requires
        t.last() is Some,
    ensures
        (TapeView { cursor: c, ..t }).sought(tick) == t.sought(tick),
        (TapeView { cursor: c, ..t }).sought_ts(ts_ns) == t.sought_ts(ts_ns),
{
}

/// A single step that is left waiting advanced nothing, so issuing it again is all there is to do.
pub proof fn a_waiting_step_advanced_nothing(t: TapeView)
    requires
        t.ok(),
        t.pos() is Some,
        t.step_pending(1),
    ensures
        t.stepped(1).frame().tick == t.frame().tick,
{
    a_step_moves_on(t);
}

proof fn lemma_first_hit_skips(
    ticks: Seq<TickView>,
    ws: Seq<WatchView>,
    from: nat,
    mid: nat,
    last: nat,
)
    requires
        from <= mid + 1,
        mid <= last,
        forall|p: int| #![trigger ticks[p]] from <= p <= mid ==> !hit(ticks[p], ws),
    ensures
        first_hit(ticks, ws, from, last) == first_hit(ticks, ws, mid + 1, last),
    decreases mid + 1 - from,
{
    if from <= mid {
        assert(!hit(ticks[from as int], ws));
        lemma_first_hit_skips(ticks, ws, from + 1, mid, last);
    }
}

/// Whatever the passes in between drop, a tick that is still held and was there before is one of those
/// that were.
proof fn lemma_old_ticks(t: TapeView, msgs: Seq<MsgView>)
    requires
        t.ok(),
        open_to_all(t, msgs),
        t.opened + msgs.len() < 0x1_0000_0000_0000_0000,
    ensures
        absorbed_all(t, msgs).ok(),
        absorbed_all(t, msgs).opened == t.opened + msgs.len(),
        forall|q: int|
            #![trigger absorbed_all(t, msgs).ticks[q]]
            0 <= q < absorbed_all(t, msgs).ticks.len() && absorbed_all(t, msgs).ticks[q].abs
                < t.opened ==> t.ticks.contains(absorbed_all(t, msgs).ticks[q]),
    decreases msgs.len(),
{
    let u = absorbed_all(t, msgs);
    if msgs.len() == 0 {
        assert forall|q: int| #![trigger u.ticks[q]] 0 <= q < u.ticks.len() implies t.ticks.contains(
            u.ticks[q],
        ) by {
            assert(t.ticks[q] == u.ticks[q]);
        }
    } else {
        let d = absorbed_all(t, msgs.drop_last());
        let msg = msgs.last();
        lemma_old_ticks(t, msgs.drop_last());
        absorbing_keeps_a_tape(d, msg);
        lemma_with_nodes(d, msg.meta);
        lemma_landed_sound(d, msg);
        let l = landed(d, msg);
        assert(l.climbs());
        lemma_kept(l.ticks, whole(l), settled(l));
        assert forall|q: int|
            #![trigger u.ticks[q]]
            0 <= q < u.ticks.len() && u.ticks[q].abs < t.opened implies t.ticks.contains(
            u.ticks[q],
        ) by {
            assert(l.ticks.contains(u.ticks[q])) by {
                if l.ticks.len() != l.capacity {
                    assert(l.ticks[q] == u.ticks[q]);
                }
            }
            let x = choose|x: int| 0 <= x < l.ticks.len() && l.ticks[x] == u.ticks[q];
            assert(d.ticks[x] == u.ticks[q]);
            let k = choose|k: int|
                0 <= k < absorbed_all(t, msgs.drop_last()).ticks.len() && absorbed_all(
                    t,
                    msgs.drop_last(),
                ).ticks[k] == u.ticks[q];
        }
    }
}

/// A search left waiting resumes where it got to: once the tape has grown, whatever the passes in
/// between dropped, searching on from there finds what searching from where it started would.
#[verifier::spinoff_prover]
#[verifier::rlimit(40)]
pub proof fn a_waiting_search_resumes(t: TapeView, msgs: Seq<MsgView>, ws: Seq<WatchView>)
    requires
        t.ok(),
        open_to_all(t, msgs),
        t.opened + msgs.len() < 0x1_0000_0000_0000_0000,
        !t.sealed,
        t.pos() is Some,
        t.cursor == t.frame().tick,
        t.scan_hit(ws) is None,
    ensures
        ({
            let u = absorbed_all(t, msgs);
            (TapeView { cursor: t.scanned(ws).cursor, ..u }).scan_hit(ws) == (TapeView {
                cursor: t.cursor,
                ..u
            }).scan_hit(ws)
        }),
{
    let p = t.pos()->Some_0;
    let l = t.last()->Some_0;
    let u = absorbed_all(t, msgs);
    lemma_old_ticks(t, msgs);
    assert(t.ordered());
    assert(u.climbs());
    parking_is_exact(t, l);
    a_search_stops_at_the_first_hit(t.ticks, ws, p + 1, l);
    if u.last() is Some {
        let from = t.cursor;
        let to = t.scanned(ws).cursor;
        let a = (TapeView { cursor: from, ..u }).pos()->Some_0;
        let b = (TapeView { cursor: to, ..u }).pos()->Some_0;
        assert(from <= to) by {
            if p < l {
                assert(t.ticks[p as int].abs < t.ticks[l as int].abs);
            }
        }
        lemma_under(u.ticks, from);
        lemma_under(u.ticks, to);
        if under(u.ticks, from) > under(u.ticks, to) {
            let x = under(u.ticks, to) as int;
            assert(u.ticks[x].abs < from);
            assert(u.ticks[x].abs >= to);
        }
        assert(a <= b);
        assert forall|x: int| #![trigger u.ticks[x]] a + 1 <= x <= b implies !hit(u.ticks[x], ws) by {
            assert(from <= u.ticks[x].abs < to);
            assert(t.ticks[l as int].abs < t.opened) by {
                assert(t.ticks[t.ticks.len() - 1].abs == t.opened - 1);
                if l < t.ticks.len() - 1 {
                    assert(t.ticks[l as int].abs < t.ticks[t.ticks.len() - 1].abs);
                }
            }
            let y = choose|y: int| 0 <= y < t.ticks.len() && t.ticks[y] == u.ticks[x];
            assert(p < y <= l) by {
                if y <= p {
                    if y < p {
                        assert(t.ticks[y].abs < t.ticks[p as int].abs);
                    }
                }
                if y > l {
                    assert(t.ticks[l as int].abs < t.ticks[y].abs);
                }
            }
            assert(!hit(t.ticks[y], ws));
        }
        lemma_first_hit_skips(u.ticks, ws, a + 1, b, u.last()->Some_0);
    }
}

} // verus!
