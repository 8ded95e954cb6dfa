//! The laws of the cursor: where each op lands and what it answers, told by the ticks that are held and
//! the frame that is shown.
use vstd::prelude::*;

use crate::api_types::FrameView;
use crate::keeping::lemma_under;
use crate::model::{under, TapeView, TickView};
use crate::ops::{after_op, op_answer, OpView};
use crate::replay::{first_hit, hit, named_first, watch_hit, WatchView};
use crate::reporting::{shows_finite, shows_numbers, slots_hold_what_can_be_shown};
use crate::walking::{
    a_quiet_node_shows_its_last_fire, a_search_stops_at_the_first_hit, a_seek_by_time_lands_newest,
    a_seek_lands_nearest, parking_is_exact,
};

verus! {

/// Node `i` fired on the tick: its values are there.
pub open spec fn has_fire(t: TickView, i: int) -> bool {
    0 <= i < t.acts.len() && t.acts[i].vals is Some
}

/// How many ticks can be addressed: all of them once the recording is over, all but the newest before.
pub open spec fn reachable(t: TapeView) -> int {
    if t.sealed {
        t.ticks.len() as int
    } else if t.ticks.len() > 0 {
        t.ticks.len() - 1
    } else {
        0
    }
}

/// The cursor stands on position `p`: the newest addressable tick before what it has consumed, or the
/// front where there is none.
pub open spec fn stands_on(t: TapeView, p: int) -> bool {
    &&& 0 <= p < reachable(t)
    &&& t.ticks[p].abs < t.cursor || p == 0
    &&& forall|q: int| #![trigger t.ticks[q]] p < q < reachable(t) ==> t.ticks[q].abs >= t.cursor
}

/// The cursor stands on exactly one addressable tick where there is one, and the frame is that tick's.
pub proof fn the_cursor_stands_on_one_tick(t: TapeView)
    requires
        t.ok(),
    ensures
        t.pos() is Some <==> reachable(t) > 0,
        t.last() is Some <==> reachable(t) > 0,
        reachable(t) > 0 ==> t.last() == Some((reachable(t) - 1) as nat) && stands_on(
            t,
            t.pos()->Some_0 as int,
        ),
        forall|p: int| stands_on(t, p) ==> t.pos() == Some(p as nat),
{
    lemma_under(t.ticks, t.cursor);
    let u = under(t.ticks, t.cursor) as int;
    if reachable(t) > 0 {
        let p = t.pos()->Some_0 as int;
        assert forall|q: int| #![trigger t.ticks[q]] p < q < reachable(t) implies t.ticks[q].abs
            >= t.cursor by {
            if u == 0 {
                assert(t.ticks[0].abs < t.ticks[q].abs);
                assert(t.ticks[0].abs >= t.cursor);
            }
        }
    }
    assert forall|p: int| stands_on(t, p) implies t.pos() == Some(p as nat) by {
        let x = t.pos()->Some_0 as int;
        if x < p {
            assert(t.ticks[p].abs >= t.cursor);
        }
        if p < x {
            assert(t.ticks[x].abs >= t.cursor);
        }
    }
}

/// A frame tells where it stands: the tick's number among all ticks opened, its time, how many ticks it
/// stands for, the total that can be reached, whether more may come, and what was dropped; it has an
/// activation for each node known that reported on the tick.
pub proof fn a_frame_tells_where_it_stands(t: TapeView, p: int)
    requires
        t.ok(),
        stands_on(t, p),
    ensures
        ({
            let f = t.frame();
            &&& f.tick == t.ticks[p].abs + 1
            &&& f.ts_ns == t.ticks[p].ts_ns
            &&& p == 0 ==> f.gap == t.ticks[0].abs + 1
            &&& p > 0 ==> f.gap == t.ticks[p].abs - t.ticks[p - 1].abs
            &&& t.sealed ==> f.total == t.opened
            &&& !t.sealed && t.opened > 0 ==> f.total == t.opened - 1
            &&& f.sealed == t.sealed
            &&& f.dropped == t.dropped
            &&& f.found
            &&& !f.pending
            &&& f.activations.len() <= t.topology.len()
            &&& f.activations.len() <= t.ticks[p].acts.len()
            &&& f.activations.len() == t.topology.len() || f.activations.len()
                == t.ticks[p].acts.len()
        }),
{
    the_cursor_stands_on_one_tick(t);
    assert(t.climbs());
}

/// With nothing addressable a frame is empty.
pub proof fn an_empty_frame_tells_nothing(t: TapeView)
    requires
        reachable(t) == 0,
    ensures
        t.frame().tick == 0,
        t.frame().ts_ns == 0,
        t.frame().gap == 1,
        t.frame().activations.len() == 0,
        t.frame().sealed == t.sealed,
        t.frame().dropped == t.dropped,
        t.frame().found,
        !t.frame().pending,
        t.sealed ==> t.frame().total == t.opened,
        !t.sealed && t.opened > 0 ==> t.frame().total == t.opened - 1,
        t.opened == 0 ==> t.frame().total == 0,
{
}

/// An activation shows what its node did on the frame's tick: whether it ran and fired, its Jacobian and
/// its exact columns are that tick's own, and so are its rendering and its values where it fired.
pub proof fn an_activation_is_of_its_tick(t: TapeView, p: int, i: int)
    requires
        t.ok(),
        stands_on(t, p),
        0 <= i < t.frame().activations.len(),
    ensures
        ({
            let a = t.frame().activations[i];
            let did = t.ticks[p].acts[i];
            &&& a.fired == has_fire(t.ticks[p], i)
            &&& a.ran == did.ran
            &&& a.exact == did.exact
            &&& a.jac is Some <==> did.jac is Some
            &&& a.jac matches Some(s) ==> shows_numbers(s, did.jac->Some_0)
            &&& a.exact_block is Some <==> did.block is Some
            &&& a.exact_block matches Some(b) ==> shows_numbers(b.cols, did.block->Some_0.0)
                && b.widths == did.block->Some_0.1
            &&& a.fired ==> a.out == did.out && a.vals is Some && shows_finite(
                a.vals->Some_0,
                did.vals->Some_0,
            )
            &&& a.cost_ns == t.cost[i].ns
        }),
{
    the_cursor_stands_on_one_tick(t);
    let did = t.ticks[p].acts[i];
    assert(t.frame().activations[i] == t.activation(i, p as nat));
    if did.jac is Some {
        slots_hold_what_can_be_shown(did.jac->Some_0, 0);
    }
    if did.vals is Some {
        slots_hold_what_can_be_shown(did.vals->Some_0, 0);
    }
    if did.block is Some {
        slots_hold_what_can_be_shown(did.block->Some_0.0, 0);
    }
}

/// A quiet node carries its last fire: where it last fired on an earlier tick that is held, that fire's
/// rendering and values are shown, though it is not told to have fired now.
pub proof fn a_quiet_node_carries_its_last_fire(t: TapeView, p: int, q: int, i: int)
    requires
        t.ok(),
        t.sound(),
        stands_on(t, p),
        0 <= i < t.frame().activations.len(),
        0 <= q < p,
        i < t.ticks[q].ranks.len(),
        has_fire(t.ticks[q], i),
        forall|x: int| #![trigger t.ticks[x]] q < x <= p ==> !has_fire(t.ticks[x], i),
    ensures
        ({
            let a = t.frame().activations[i];
            let did = t.ticks[q].acts[i];
            &&& !a.fired
            &&& a.out == did.out
            &&& a.vals is Some
            &&& shows_finite(a.vals->Some_0, did.vals->Some_0)
        }),
{
    the_cursor_stands_on_one_tick(t);
    a_quiet_node_shows_its_last_fire(t.ticks, i, p);
    assert(t.frame().activations[i] == t.activation(i, p as nat));
    assert(!has_fire(t.ticks[p], i));
    assert(t.ticks[q].ok(t.nodes()));
    assert(t.ticks[q].ranks[i] > 0);
    assert(t.ticks[q].fires(i));
    let x = crate::replay::held_at(t.ticks, i, p)->Some_0 as int;
    assert(t.ticks[x].ok(t.nodes()));
    assert(t.ticks[x].ranks[i] > 0);
    if x > q {
        assert(!has_fire(t.ticks[x], i));
    }
    slots_hold_what_can_be_shown(t.ticks[q].acts[i].vals->Some_0, 0);
}

/// A node that has not fired by then shows nothing but its own empty act.
pub proof fn an_unfired_node_shows_no_values(t: TapeView, p: int, i: int)
    requires
        t.ok(),
        stands_on(t, p),
        0 <= i < t.frame().activations.len(),
        forall|x: int| #![trigger t.ticks[x]] 0 <= x <= p ==> !has_fire(t.ticks[x], i),
    ensures
        !t.frame().activations[i].fired,
        t.frame().activations[i].vals is None,
        t.frame().activations[i].out == t.ticks[p].acts[i].out,
{
    the_cursor_stands_on_one_tick(t);
    a_quiet_node_shows_its_last_fire(t.ticks, i, p);
    assert(t.frame().activations[i] == t.activation(i, p as nat));
    assert(!has_fire(t.ticks[p], i));
    match crate::replay::held_at(t.ticks, i, p) {
        Some(x) => {
            assert(!has_fire(t.ticks[x as int], i));
        },
        None => {},
    }
}

/// A step goes that many held ticks on, or to the last addressable one; it is left waiting exactly where
/// that is short of what was asked while more may come.
pub proof fn a_step_lands_so_many_ticks_on(t: TapeView, p: int, n: nat)
    requires
        t.ok(),
        stands_on(t, p),
    ensures
        ({
            let z = after_op(t, OpView::Step { n });
            let f = op_answer(t, OpView::Step { n });
            let q = if p + n < reachable(t) {
                p + n
            } else {
                reachable(t) - 1
            };
            &&& stands_on(z, q)
            &&& z.ticks == t.ticks
            &&& z.sealed == t.sealed
            &&& f.tick == t.ticks[q].abs + 1
            &&& f.pending <==> !t.sealed && p + n >= reachable(t)
            &&& f.found
            &&& z == t.stepped(n)
            &&& f == (FrameView { pending: f.pending, ..z.frame() })
        }),
{
    the_cursor_stands_on_one_tick(t);
    let z = t.stepped(n);
    parking_is_exact(t, p as nat + n);
    the_cursor_stands_on_one_tick(z);
}

/// A seek goes to the newest addressable tick that is not past the number asked for, the front where all
/// are; it is left waiting exactly where the number is past the total while more may come.
pub proof fn a_seek_lands_at_or_before(t: TapeView, tick: nat)
    requires
        t.ok(),
        reachable(t) > 0,
    ensures
        ({
            let z = after_op(t, OpView::Seek { tick });
            let f = op_answer(t, OpView::Seek { tick });
            let p = z.pos()->Some_0 as int;
            &&& stands_on(z, p)
            &&& z.ticks == t.ticks
            &&& z.sealed == t.sealed
            &&& f.tick == t.ticks[p].abs + 1
            &&& p == 0 || t.ticks[p].abs + 1 <= tick
            &&& forall|q: int|
                #![trigger t.ticks[q]]
                p < q < reachable(t) ==> t.ticks[q].abs + 1 > tick
            &&& f.pending <==> !t.sealed && tick > t.frame().total
            &&& f.found
            &&& z == t.sought(tick)
            &&& f == (FrameView { pending: f.pending, ..z.frame() })
        }),
{
    the_cursor_stands_on_one_tick(t);
    let z = t.sought(tick);
    a_seek_lands_nearest(t, tick);
    parking_is_exact(t, t.nearest(tick));
    the_cursor_stands_on_one_tick(z);
    let p = z.pos()->Some_0 as int;
    assert(t.climbs());
    assert forall|q: int| #![trigger t.ticks[q]] p < q < reachable(t) implies t.ticks[q].abs + 1
        > tick by {
        if q > p + 1 {
            assert(t.ticks[p + 1].abs < t.ticks[q].abs);
        }
    }
}

/// A seek by time goes to the newest addressable tick that is not past the time, the front where all
/// are; it is left waiting exactly where the time is past the newest tick while more may come.
pub proof fn a_seek_by_time_lands_at_or_before(t: TapeView, ts_ns: i64)
    requires
        t.ok(),
        reachable(t) > 0,
    ensures
        ({
            let z = after_op(t, OpView::SeekTs { ts_ns });
            let f = op_answer(t, OpView::SeekTs { ts_ns });
            let p = z.pos()->Some_0 as int;
            &&& stands_on(z, p)
            &&& z.ticks == t.ticks
            &&& z.sealed == t.sealed
            &&& f.tick == t.ticks[p].abs + 1
            &&& p == 0 || t.ticks[p].ts_ns <= ts_ns
            &&& forall|q: int|
                #![trigger t.ticks[q]]
                p < q < reachable(t) ==> t.ticks[q].ts_ns > ts_ns
            &&& f.pending <==> !t.sealed && t.ticks[t.ticks.len() - 1].ts_ns < ts_ns
            &&& f.found
            &&& z == t.sought_ts(ts_ns)
            &&& f == (FrameView { pending: f.pending, ..z.frame() })
        }),
{
    the_cursor_stands_on_one_tick(t);
    let z = t.sought_ts(ts_ns);
    a_seek_by_time_lands_newest(t, ts_ns);
    the_cursor_stands_on_one_tick(z);
    parking_is_exact(
        t,
        match crate::replay::latest(t.addressable().ticks, ts_ns) {
            Some(p) => p,
            None => 0,
        },
    );
}

/// With nothing addressable no op moves anything. A step waits while more may come, a search by name
/// waits only for a node that is known, and a number past the total is waited for.
pub proof fn an_empty_tape_stays_put(t: TapeView, n: nat, ts_ns: i64)
    requires
        t.ok(),
        reachable(t) == 0,
    ensures
        after_op(t, OpView::Step { n }) == t,
        op_answer(t, OpView::Step { n }).pending <==> !t.sealed,
        after_op(t, OpView::Seek { tick: n }) == t,
        op_answer(t, OpView::Seek { tick: n }).pending <==> !t.sealed && n > t.frame().total,
        after_op(t, OpView::SeekTs { ts_ns }) == t,
        op_answer(t, OpView::SeekTs { ts_ns }).pending <==> !t.sealed && t.ticks.len() > 0
            && t.ticks[t.ticks.len() - 1].ts_ns < ts_ns,
{
    the_cursor_stands_on_one_tick(t);
}

/// Asking where the cursor stands moves nothing.
pub proof fn a_status_is_the_frame(t: TapeView)
    ensures
        after_op(t, OpView::Status) == t,
        op_answer(t, OpView::Status) == t.frame(),
{
}

/// What a search came to, from a cursor on position `p`: `z` is the tape after it, `f` its answer, and
/// `stops` says which ticks it stops on. It finds the first such tick past the cursor, or tells that
/// there is none: then it waits at the last addressable tick while more may come, and moves nothing once
/// the recording is over.
pub open spec fn searched(
    t: TapeView,
    p: int,
    stops: spec_fn(TickView) -> bool,
    z: TapeView,
    f: FrameView,
) -> bool {
    let end = reachable(t);
    &&& f.found <==> exists|q: int| #![trigger t.ticks[q]] p < q < end && stops(t.ticks[q])
    &&& f.found ==> exists|q: int|
        #![trigger t.ticks[q]]
        {
            &&& p < q < end
            &&& stops(t.ticks[q])
            &&& forall|x: int| #![trigger t.ticks[x]] p < x < q ==> !stops(t.ticks[x])
            &&& stands_on(z, q)
            &&& f.tick == t.ticks[q].abs + 1
        }
    &&& !f.found && t.sealed ==> z == t && f.tick == t.frame().tick
    &&& !f.found && !t.sealed ==> stands_on(z, end - 1) && f.tick == t.ticks[end - 1].abs + 1
    &&& f.pending <==> !f.found && !t.sealed
    &&& z == (TapeView { cursor: z.cursor, ..t })
    &&& f == (FrameView { pending: f.pending, found: f.found, ..z.frame() })
}

/// A scan for `ws` from where the cursor stands is a search for the ticks `ws` hits.
proof fn lemma_scanned(t: TapeView, p: int, ws: Seq<WatchView>, stops: spec_fn(TickView) -> bool)
    requires
        t.ok(),
        stands_on(t, p),
        forall|q: int|
            #![trigger t.ticks[q]]
            0 <= q < t.ticks.len() ==> (hit(t.ticks[q], ws) <==> stops(t.ticks[q])),
    ensures
        searched(t, p, stops, t.scanned(ws), t.scan_frame(ws)),
{
    the_cursor_stands_on_one_tick(t);
    let l = (reachable(t) - 1) as nat;
    let z = t.scanned(ws);
    let f = t.scan_frame(ws);
    a_search_stops_at_the_first_hit(t.ticks, ws, (p + 1) as nat, l);
    assert(t.scan_hit(ws) == first_hit(t.ticks, ws, (p + 1) as nat, l));
    match t.scan_hit(ws) {
        Some(q) => {
            parking_is_exact(t, q);
            the_cursor_stands_on_one_tick(z);
            assert(stops(t.ticks[q as int]));
            assert forall|x: int| #![trigger t.ticks[x]] p < x < q implies !stops(t.ticks[x]) by {
                assert(!hit(t.ticks[x], ws));
            }
            assert(stands_on(z, q as int));
        },
        None => {
            assert forall|q: int| #![trigger t.ticks[q]] p < q < reachable(t) implies !stops(
                t.ticks[q],
            ) by {
                assert(!hit(t.ticks[q], ws));
            }
            if !t.sealed {
                parking_is_exact(t, l);
                the_cursor_stands_on_one_tick(z);
            }
        },
    }
}

proof fn lemma_named_first(topology: Seq<crate::api_types::TopoView>, node: Seq<char>, from: nat)
    requires
        from <= topology.len(),
    ensures
        match named_first(topology, node, from) {
            Some(i) => from <= i < topology.len() && topology[i as int].node == node && forall|j: int|
                #![trigger topology[j]]
                from <= j < i ==> topology[j].node != node,
            None => forall|j: int|
                #![trigger topology[j]]
                from <= j < topology.len() ==> topology[j].node != node,
        },
    decreases topology.len() - from,
{
    if from < topology.len() && topology[from as int].node != node {
        lemma_named_first(topology, node, from + 1);
    }
}

/// A search by name finds the node's next fire: the first tick past the cursor on which the first node
/// of that name fired, with whatever it fired, and nothing where it fired on none.
pub proof fn a_search_by_name_finds_the_next_fire(t: TapeView, p: int, node: Seq<char>, i: int)
    requires
        t.ok(),
        stands_on(t, p),
        0 <= i < t.topology.len(),
        t.topology[i].node == node,
        forall|j: int| #![trigger t.topology[j]] 0 <= j < i ==> t.topology[j].node != node,
    ensures
        searched(
            t,
            p,
            |k: TickView| has_fire(k, i),
            after_op(t, OpView::StepUntil { node }),
            op_answer(t, OpView::StepUntil { node }),
        ),
        t.until(node) is Some,
        after_op(t, OpView::StepUntil { node }) == t.scanned(t.until(node)->Some_0),
        op_answer(t, OpView::StepUntil { node }) == t.scan_frame(t.until(node)->Some_0),
{
    lemma_named_first(t.topology, node, 0);
    let x = named_first(t.topology, node, 0)->Some_0 as int;
    assert(x == i) by {
        assert(t.topology[i].node == node);
        if i < x {
            assert(t.topology[i].node != node);
        }
        if x < i {
            assert(t.topology[x].node != node);
        }
    }
    let ws = t.until(node)->Some_0;
    assert(ws.len() == 1 && ws[0] == (WatchView { node: i as nat, was: None }));
    assert forall|q: int| #![trigger t.ticks[q]] 0 <= q < t.ticks.len() implies (hit(t.ticks[q], ws)
        <==> has_fire(t.ticks[q], i)) by {
        if has_fire(t.ticks[q], i) {
            assert(watch_hit(t.ticks[q], ws[0]));
        }
    }
    lemma_scanned(t, p, ws, |k: TickView| has_fire(k, i));
}

/// A search for a name the graph does not carry finds nothing, waits for nothing and moves nothing.
pub proof fn a_search_for_no_node_finds_nothing(t: TapeView, node: Seq<char>)
    requires
        forall|j: int| #![trigger t.topology[j]] 0 <= j < t.topology.len() ==> t.topology[j].node
            != node,
    ensures
        after_op(t, OpView::StepUntil { node }) == t,
        !op_answer(t, OpView::StepUntil { node }).found,
        !op_answer(t, OpView::StepUntil { node }).pending,
        op_answer(t, OpView::StepUntil { node }).tick == t.frame().tick,
        t.until(node) is None,
{
    lemma_named_first(t.topology, node, 0);
    match named_first(t.topology, node, 0) {
        Some(x) => {
            assert(t.topology[x as int].node != node);
        },
        None => {},
    }
}

/// Of the nodes named in `names`, one fired on the tick with another rendering than it shows now.
pub open spec fn changes(t: TapeView, names: Seq<Seq<char>>, k: TickView) -> bool {
    exists|i: int|
        #![trigger t.topology[i]]
        {
            &&& 0 <= i < t.topology.len()
            &&& names.contains(t.topology[i].node)
            &&& has_fire(k, i)
            &&& i < t.frame().activations.len() ==> t.frame().activations[i].out != k.acts[i].out
        }
}

proof fn lemma_watching(t: TapeView, names: Seq<Seq<char>>, n: nat)
    requires
        n <= t.nodes(),
    ensures
        ({
            let ws = t.watching(names, n);
            &&& forall|k: int|
                #![trigger ws[k]]
                0 <= k < ws.len() ==> ws[k].node < n && names.contains(
                    t.topology[ws[k].node as int].node,
                ) && ws[k].was == t.out_now(ws[k].node)
            &&& forall|i: int|
                #![trigger t.topology[i]]
                0 <= i < n && names.contains(t.topology[i].node) ==> exists|k: int|
                    #![trigger ws[k]]
                    0 <= k < ws.len() && ws[k].node == i
        }),
    decreases n,
{
    if n > 0 {
        let m = (n - 1) as nat;
        lemma_watching(t, names, m);
        let was = t.watching(names, m);
        let ws = t.watching(names, n);
        assert forall|k: int| #![trigger ws[k]] 0 <= k < ws.len() implies ws[k].node < n
            && names.contains(t.topology[ws[k].node as int].node) && ws[k].was == t.out_now(
            ws[k].node,
        ) by {
            if k < was.len() {
                assert(ws[k] == was[k]);
            }
        }
        assert forall|i: int|
            #![trigger t.topology[i]]
            0 <= i < n && names.contains(t.topology[i].node) implies exists|k: int|
            #![trigger ws[k]]
            0 <= k < ws.len() && ws[k].node == i by {
            if i < m {
                let k = choose|k: int| #![trigger was[k]] 0 <= k < was.len() && was[k].node == i;
                assert(ws[k] == was[k]);
            } else {
                assert(ws[was.len() as int].node == i);
            }
        }
    }
}

/// A search for a change finds the next one: the first tick past the cursor on which one of the named
/// nodes fired with another rendering than the frame before the call shows for it, a quiet node's being
/// the one it carries; and nothing where there is none.
pub proof fn a_search_for_change_finds_the_next(t: TapeView, p: int, nodes: Seq<Seq<char>>)
    requires
        t.ok(),
        stands_on(t, p),
    ensures
        searched(
            t,
            p,
            |k: TickView| changes(t, nodes, k),
            after_op(t, OpView::StepUntilChange { nodes }),
            op_answer(t, OpView::StepUntilChange { nodes }),
        ),
        after_op(t, OpView::StepUntilChange { nodes }) == t.scanned(t.watching(nodes, t.nodes())),
        op_answer(t, OpView::StepUntilChange { nodes }) == t.scan_frame(
            t.watching(nodes, t.nodes()),
        ),
{
    the_cursor_stands_on_one_tick(t);
    let ws = t.watching(nodes, t.nodes());
    lemma_watching(t, nodes, t.nodes());
    let now = t.frame().activations;
    assert forall|i: int| 0 <= i < t.nodes() implies #[trigger] t.out_now(i as nat) == (if i
        < now.len() {
        Some(now[i].out)
    } else {
        None
    }) by {
        if i < now.len() {
            assert(now[i] == t.activation(i, p as nat));
        }
    }
    assert forall|q: int| #![trigger t.ticks[q]] 0 <= q < t.ticks.len() implies (hit(t.ticks[q], ws)
        <==> changes(t, nodes, t.ticks[q])) by {
        let k = t.ticks[q];
        if hit(k, ws) {
            let x = choose|x: int| #![trigger ws[x]] 0 <= x < ws.len() && watch_hit(k, ws[x]);
            let i = ws[x].node as int;
            assert(t.out_now(i as nat) == ws[x].was);
            assert(nodes.contains(t.topology[i].node));
            assert(has_fire(k, i));
        }
        if changes(t, nodes, k) {
            let i = choose|i: int|
                #![trigger t.topology[i]]
                {
                    &&& 0 <= i < t.topology.len()
                    &&& nodes.contains(t.topology[i].node)
                    &&& has_fire(k, i)
                    &&& i < t.frame().activations.len() ==> t.frame().activations[i].out
                        != k.acts[i].out
                };
            let x = choose|x: int| #![trigger ws[x]] 0 <= x < ws.len() && ws[x].node == i;
            assert(t.out_now(i as nat) == ws[x].was);
            assert(watch_hit(k, ws[x]));
        }
    }
    lemma_scanned(t, p, ws, |k: TickView| changes(t, nodes, k));
}

/// With nothing addressable a search finds nothing and moves nothing; it waits while more may come.
pub proof fn a_search_of_nothing_waits(t: TapeView, node: Seq<char>, nodes: Seq<Seq<char>>, i: int)
    requires
        reachable(t) == 0,
        0 <= i < t.topology.len(),
        t.topology[i].node == node,
    ensures
        after_op(t, OpView::StepUntil { node }) == t,
        !op_answer(t, OpView::StepUntil { node }).found,
        op_answer(t, OpView::StepUntil { node }).pending <==> !t.sealed,
        after_op(t, OpView::StepUntilChange { nodes }) == t,
        !op_answer(t, OpView::StepUntilChange { nodes }).found,
        op_answer(t, OpView::StepUntilChange { nodes }).pending <==> !t.sealed,
{
    lemma_named_first(t.topology, node, 0);
    assert(t.topology[i].node == node);
}

/// The graph is shown from the first addressable tick on, every node as the tape lists it with the cost
/// estimated so far; before that nothing is shown.
pub proof fn the_graph_is_shown_from_the_first_tick(t: TapeView, i: int)
    ensures
        ({
            let any = if t.sealed {
                t.opened >= 1
            } else {
                t.opened >= 2
            };
            &&& !any ==> t.outline().len() == 0
            &&& any ==> t.outline().len() == t.topology.len()
            &&& any && 0 <= i < t.topology.len() ==> {
                let n = t.outline()[i];
                &&& n.node == t.topology[i].node
                &&& n.deps == t.topology[i].deps
                &&& n.gates == t.topology[i].gates
                &&& n.dims == t.topology[i].dims
                &&& n.plots == t.topology[i].plots
                &&& n.fidelity == t.topology[i].fidelity
                &&& n.deriv == t.topology[i].deriv
                &&& n.cost_ns == t.cost[i].ns
            }
        }),
{
}

} // verus!
