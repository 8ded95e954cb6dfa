//! The laws of the panel: where each node is drawn, what is docked on it and which edges it has.
use vstd::prelude::*;

use crate::api_types::{ActivationView, TopoView};
use crate::board::{
    after_comma, all_gates, board, breadth, carded, column, columns, depth_in, dock_of, docked_at,
    docks, drawable, in_order, is_docked, is_scalar, levels, newest_named, past_deepest,
    plain_columns, resolved, scalar_gates, spaced, trim_end, trim_start, unspaced, whitespace,
    with_dock, DockView, Spaced,
};
use crate::charting::{a_shape_holds_its_product, product};
use crate::floats::Bits;
use crate::panel::{
    act_named, activation_links, dep_len, dep_lens, gate_open, hovered_cards, known_deps, links,
    pointed_at, shaped, slot_of, total_len, touches, EndView, Hover, Link,
};
use crate::replay::named_first;

verus! {

proof fn lemma_trims(s: Seq<Spaced>)
    ensures
        exists|hi: int|
            {
                &&& 0 <= hi <= s.len()
                &&& trim_end(s) == #[trigger] s.take(hi)
                &&& hi > 0 ==> !s[hi - 1].space
                &&& forall|x: int| #![trigger s[x]] hi <= x < s.len() ==> s[x].space
            },
        exists|lo: int|
            {
                &&& 0 <= lo <= s.len()
                &&& trim_start(s) == #[trigger] s.skip(lo)
                &&& lo < s.len() ==> !s[lo].space
                &&& forall|x: int| #![trigger s[x]] 0 <= x < lo ==> s[x].space
            },
    decreases s.len(),
{
    if s.len() == 0 {
        assert(s.take(0) =~= s && s.skip(0) =~= s);
    } else {
        if s.last().space {
            let d = s.drop_last();
            lemma_trims(d);
            let hi = choose|hi: int|
                {
                    &&& 0 <= hi <= d.len()
                    &&& trim_end(d) == #[trigger] d.take(hi)
                    &&& hi > 0 ==> !d[hi - 1].space
                    &&& forall|x: int| #![trigger d[x]] hi <= x < d.len() ==> d[x].space
                };
            assert(d.take(hi) =~= s.take(hi));
            assert forall|x: int| #![trigger s[x]] hi <= x < s.len() implies s[x].space by {
                if x < d.len() {
                    assert(d[x] == s[x]);
                }
            }
            assert(trim_end(s) == s.take(hi));
        } else {
            assert(s.take(s.len() as int) =~= s);
        }
        if s[0].space {
            let d = s.drop_first();
            lemma_trims(d);
            let lo = choose|lo: int|
                {
                    &&& 0 <= lo <= d.len()
                    &&& trim_start(d) == #[trigger] d.skip(lo)
                    &&& lo < d.len() ==> !d[lo].space
                    &&& forall|x: int| #![trigger d[x]] 0 <= x < lo ==> d[x].space
                };
            assert(d.skip(lo) =~= s.skip(lo + 1));
            assert forall|x: int| #![trigger s[x]] 0 <= x < lo + 1 implies s[x].space by {
                if x > 0 {
                    assert(d[x - 1] == s[x]);
                }
            }
            if lo + 1 < s.len() {
                assert(d[lo] == s[lo + 1]);
            }
            assert(trim_start(s) == s.skip(lo + 1));
        } else {
            assert(s.skip(0) =~= s);
        }
    }
}

proof fn lemma_comma(s: Seq<Spaced>)
    ensures
        match after_comma(s) {
            Some(r) => exists|c: int|
                {
                    &&& 0 <= c < s.len()
                    &&& s[c].c == ','
                    &&& r == #[trigger] s.skip(c + 1)
                    &&& forall|x: int| #![trigger s[x]] c < x < s.len() ==> s[x].c != ','
                },
            None => forall|x: int| #![trigger s[x]] 0 <= x < s.len() ==> s[x].c != ',',
        },
    decreases s.len(),
{
    if s.len() > 0 {
        let n = s.len() as int;
        if s.last().c == ',' {
            assert(s.skip(n - 1 + 1) =~= Seq::empty());
        } else {
            let d = s.drop_last();
            lemma_comma(d);
            match after_comma(d) {
                Some(r) => {
                    let c = choose|c: int|
                        {
                            &&& 0 <= c < d.len()
                            &&& d[c].c == ','
                            &&& r == #[trigger] d.skip(c + 1)
                            &&& forall|x: int| #![trigger d[x]] c < x < d.len() ==> d[x].c != ','
                        };
                    assert(d.skip(c + 1).push(s.last()) =~= s.skip(c + 1));
                    assert forall|x: int| #![trigger s[x]] c < x < s.len() implies s[x].c != ',' by {
                        if x < d.len() {
                            assert(d[x] == s[x]);
                        }
                    }
                },
                None => {
                    assert forall|x: int| #![trigger s[x]] 0 <= x < s.len() implies s[x].c != ',' by {
                        if x < d.len() {
                            assert(d[x] == s[x]);
                        }
                    }
                },
            }
        }
    }
}

/// The name closes with a bracket and has a comma somewhere before it.
pub open spec fn has_depth(name: Seq<char>) -> bool {
    name.len() > 0 && name.last() == '>' && exists|c: int|
        #![trigger name[c]]
        0 <= c < name.len() - 1 && name[c] == ','
}

/// `depth` stands in `name` between its last comma and its closing bracket, with nothing but white space
/// round it and none at either end of it.
pub open spec fn ends_in_depth(name: Seq<char>, depth: Seq<char>) -> bool {
    exists|c: int, lo: int, hi: int|
        #![trigger name[c], name.subrange(lo, hi)]
        {
            &&& 0 <= c < lo <= hi <= name.len() - 1
            &&& name[c] == ','
            &&& forall|x: int| #![trigger name[x]] c < x < name.len() - 1 ==> name[x] != ','
            &&& depth == name.subrange(lo, hi)
            &&& forall|x: int| #![trigger name[x]] c < x < lo ==> whitespace(name[x])
            &&& forall|x: int| #![trigger name[x]] hi <= x < name.len() - 1 ==> whitespace(name[x])
            &&& lo < hi ==> !whitespace(name[lo]) && !whitespace(name[hi - 1])
        }
}

/// A buffer's depth is what stands between the last comma of its name and the closing bracket, without
/// the white space round it; a name without such a comma has none.
pub proof fn a_depth_is_what_a_name_ends_in(name: Seq<char>)
    ensures
        depth_in(spaced(name)) is Some <==> has_depth(name),
        depth_in(spaced(name)) matches Some(d) ==> ends_in_depth(name, unspaced(d)),
{
    let s = spaced(name);
    if name.len() > 0 && name.last() == '>' {
        let b = s.drop_last();
        lemma_comma(b);
        match after_comma(b) {
            Some(r) => {
                let c = choose|c: int|
                    {
                        &&& 0 <= c < b.len()
                        &&& b[c].c == ','
                        &&& r == #[trigger] b.skip(c + 1)
                        &&& forall|x: int| #![trigger b[x]] c < x < b.len() ==> b[x].c != ','
                    };
                assert(name[c] == ',');
                lemma_trims(r);
                let hi = choose|hi: int|
                    {
                        &&& 0 <= hi <= r.len()
                        &&& trim_end(r) == #[trigger] r.take(hi)
                        &&& hi > 0 ==> !r[hi - 1].space
                        &&& forall|x: int| #![trigger r[x]] hi <= x < r.len() ==> r[x].space
                    };
                let e = trim_end(r);
                lemma_trims(e);
                let lo = choose|lo: int|
                    {
                        &&& 0 <= lo <= e.len()
                        &&& trim_start(e) == #[trigger] e.skip(lo)
                        &&& lo < e.len() ==> !e[lo].space
                        &&& forall|x: int| #![trigger e[x]] 0 <= x < lo ==> e[x].space
                    };
                let d = depth_in(s)->Some_0;
                let from = c + 1 + lo;
                let to = c + 1 + hi;
                assert(unspaced(d) =~= name.subrange(from, to)) by {
                    assert(d.len() == hi - lo);
                    assert forall|x: int| 0 <= x < d.len() implies d[x].c == name[from + x] by {
                        assert(d[x] == e[lo + x]);
                        assert(e[lo + x] == r[lo + x]);
                        assert(r[lo + x] == b[c + 1 + lo + x]);
                    }
                }
                assert forall|x: int| #![trigger name[x]] c < x < name.len() - 1 implies name[x] != ',' by {
                    assert(b[x].c == name[x]);
                }
                assert forall|x: int| #![trigger name[x]] c < x < from implies whitespace(name[x]) by {
                    assert(e[x - c - 1].space);
                    assert(e[x - c - 1] == r[x - c - 1]);
                    assert(r[x - c - 1] == b[x]);
                }
                assert forall|x: int| #![trigger name[x]] to <= x < name.len() - 1 implies whitespace(
                    name[x],
                ) by {
                    assert(r[x - c - 1].space);
                    assert(r[x - c - 1] == b[x]);
                }
                if from < to {
                    assert(e[lo] == r[lo] && r[lo] == b[from]);
                    assert(r[hi - 1] == b[to - 1]);
                }
                assert(ends_in_depth(name, unspaced(d)));
            },
            None => {
                assert forall|c: int| #![trigger name[c]] 0 <= c < name.len() - 1 implies name[c] != ',' by {
                    assert(b[c].c == name[c]);
                }
            },
        }
    } else if name.len() > 0 {
        assert(s.last().c == name.last());
    }
}

/// A node is docked exactly where its name is a buffer's and ends in a depth: on its first dependency,
/// under its own name.
pub proof fn a_buffer_is_docked_on_its_series(n: TopoView)
    ensures
        dock_of(n) is Some <==> "Buffer<"@.is_prefix_of(n.node) && has_depth(n.node),
        dock_of(n) matches Some(d) ==> d.source == n.deps[0] && d.buffer == n.node && ends_in_depth(
            n.node,
            d.depth,
        ),
{
    a_depth_is_what_a_name_ends_in(n.node);
}

proof fn lemma_docked_at(ds: Seq<DockView>, source: Seq<char>, from: nat)
    ensures
        match docked_at(ds, source, from) {
            Some(k) => from <= k < ds.len() && ds[k as int].source == source,
            None => forall|k: int|
                #![trigger ds[k]]
                from <= k < ds.len() ==> ds[k].source != source,
        },
    decreases ds.len() - from,
{
    if from < ds.len() && ds[from as int].source != source {
        lemma_docked_at(ds, source, from + 1);
    }
}

/// The docks of the first `n` nodes, given what each of them docks.
pub open spec fn docks_as(os: Seq<Option<DockView>>, n: nat) -> Seq<DockView>
    decreases n,
{
    if n == 0 {
        Seq::empty()
    } else {
        let r = docks_as(os, (n - 1) as nat);
        match os[n - 1] {
            Some(d) => with_dock(r, d),
            None => r,
        }
    }
}

proof fn lemma_docks_as(t: Seq<TopoView>, os: Seq<Option<DockView>>, n: nat)
    requires
        n <= t.len(),
        os.len() == t.len(),
        forall|i: int| #![trigger os[i]] 0 <= i < os.len() ==> os[i] == dock_of(t[i]),
    ensures
        docks(t, n) == docks_as(os, n),
    decreases n,
{
    if n > 0 {
        lemma_docks_as(t, os, (n - 1) as nat);
        assert(os[n - 1] == dock_of(t[n - 1]));
    }
}

/// The dock is the last of the first `n` on its series.
pub open spec fn is_last_dock(os: Seq<Option<DockView>>, n: nat, d: DockView) -> bool {
    exists|i: int|
        #![trigger os[i]]
        {
            &&& 0 <= i < n
            &&& os[i] == Some(d)
            &&& forall|j: int|
                #![trigger os[j]]
                i < j < n && os[j] is Some ==> os[j]->Some_0.source != d.source
        }
}

/// Something is docked on the series.
pub open spec fn has_dock_on(ds: Seq<DockView>, source: Seq<char>) -> bool {
    exists|k: int| #![trigger ds[k]] 0 <= k < ds.len() && ds[k].source == source
}

proof fn lemma_last_dock_stays(os: Seq<Option<DockView>>, n: nat, d: DockView)
    requires
        0 < n <= os.len(),
        is_last_dock(os, (n - 1) as nat, d),
        os[n - 1] is Some ==> os[n - 1]->Some_0.source != d.source,
    ensures
        is_last_dock(os, n, d),
{
    let m = (n - 1) as nat;
    let i = choose|i: int|
        #![trigger os[i]]
        {
            &&& 0 <= i < m
            &&& os[i] == Some(d)
            &&& forall|j: int|
                #![trigger os[j]]
                i < j < m && os[j] is Some ==> os[j]->Some_0.source != d.source
        };
    assert(os[i] == Some(d));
}

proof fn lemma_last_docks(os: Seq<Option<DockView>>, n: nat)
    requires
        n <= os.len(),
    ensures
        forall|k: int| #![trigger docks_as(os, n)[k]] 0 <= k < docks_as(os, n).len() ==> is_last_dock(
            os,
            n,
            docks_as(os, n)[k],
        ),
        forall|i: int|
            #![trigger os[i]]
            0 <= i < n && os[i] is Some ==> has_dock_on(docks_as(os, n), os[i]->Some_0.source),
        forall|j: int, k: int|
            #![trigger docks_as(os, n)[j], docks_as(os, n)[k]]
            0 <= j < k < docks_as(os, n).len() ==> docks_as(os, n)[j].source != docks_as(os, n)[k].source,
    decreases n,
{
    if n > 0 {
        let m = (n - 1) as nat;
        lemma_last_docks(os, m);
        let r = docks_as(os, m);
        let z = docks_as(os, n);
        match os[n - 1] {
            Some(d) => {
                lemma_docked_at(r, d.source, 0);
                let at = match docked_at(r, d.source, 0) {
                    Some(k) => k as int,
                    None => r.len() as int,
                };
                assert(z[at] == d);
                assert(is_last_dock(os, n, d));
                assert forall|k: int| #![trigger z[k]] 0 <= k < z.len() implies is_last_dock(
                    os,
                    n,
                    z[k],
                ) by {
                    if k != at {
                        assert(z[k] == r[k]);
                        assert(r[k].source != d.source) by {
                            if at < r.len() {
                                assert(r[at].source == d.source);
                            }
                        }
                        lemma_last_dock_stays(os, n, r[k]);
                    }
                }
                assert forall|i: int| #![trigger os[i]] 0 <= i < n && os[i] is Some implies has_dock_on(
                    z,
                    os[i]->Some_0.source,
                ) by {
                    let source = os[i]->Some_0.source;
                    if i < m {
                        assert(has_dock_on(r, source));
                        let k = choose|k: int|
                            #![trigger r[k]]
                            0 <= k < r.len() && r[k].source == source;
                        assert(z[k].source == source);
                    } else {
                        assert(z[at].source == source);
                    }
                }
                assert forall|j: int, k: int| #![trigger z[j], z[k]] 0 <= j < k < z.len() implies z[j].source
                    != z[k].source by {
                    assert(z[j].source == r[j].source);
                    if k < r.len() {
                        assert(z[k].source == r[k].source);
                    }
                }
            },
            None => {
                assert forall|k: int| #![trigger z[k]] 0 <= k < z.len() implies is_last_dock(
                    os,
                    n,
                    z[k],
                ) by {
                    assert(z[k] == r[k]);
                    lemma_last_dock_stays(os, n, r[k]);
                }
            },
        }
    }
}

/// Every series with buffers has one docked, the last of them, and nothing else is docked.
pub proof fn the_last_buffer_of_a_series_is_docked(t: Seq<TopoView>, os: Seq<Option<DockView>>)
    requires
        os.len() == t.len(),
        forall|i: int| #![trigger os[i]] 0 <= i < os.len() ==> os[i] == dock_of(t[i]),
    ensures
        forall|k: int| #![trigger board(t).docks[k]] 0 <= k < board(t).docks.len() ==> is_last_dock(
            os,
            t.len(),
            board(t).docks[k],
        ),
        forall|i: int|
            #![trigger os[i]]
            0 <= i < t.len() && os[i] is Some ==> has_dock_on(board(t).docks, os[i]->Some_0.source),
        forall|j: int, k: int|
            #![trigger board(t).docks[j], board(t).docks[k]]
            0 <= j < k < board(t).docks.len() ==> board(t).docks[j].source != board(t).docks[k].source,
{
    lemma_docks_as(t, os, t.len());
    lemma_last_docks(os, t.len());
    assert(board(t).docks == docks_as(os, t.len()));
}

proof fn lemma_resolved(ds: Seq<DockView>, dep: Seq<char>, from: nat)
    ensures
        (forall|k: int| #![trigger ds[k]] from <= k < ds.len() ==> ds[k].buffer != dep) ==> resolved(
            ds,
            dep,
            from,
        ) == dep,
        forall|k: int|
            #![trigger ds[k]]
            from <= k < ds.len() && ds[k].buffer == dep && (forall|j: int|
                #![trigger ds[j]]
                from <= j < k ==> ds[j].buffer != dep) ==> resolved(ds, dep, from) == ds[k].source,
    decreases ds.len() - from,
{
    if from < ds.len() {
        if ds[from as int].buffer == dep {
            assert forall|k: int|
                #![trigger ds[k]]
                from <= k < ds.len() && ds[k].buffer == dep && (forall|j: int|
                    #![trigger ds[j]]
                    from <= j < k ==> ds[j].buffer != dep) implies resolved(ds, dep, from)
                == ds[k].source by {
                if k > from {
                    assert(ds[from as int].buffer != dep);
                }
            }
        } else {
            lemma_resolved(ds, dep, from + 1);
        }
    }
}

/// A dependency on a docked buffer is drawn from the series the buffer retains; any other from itself.
pub proof fn a_dependency_is_drawn_from_its_series(ds: Seq<DockView>, dep: Seq<char>, k: int)
    ensures
        (forall|j: int| #![trigger ds[j]] 0 <= j < ds.len() ==> ds[j].buffer != dep) ==> resolved(
            ds,
            dep,
            0,
        ) == dep,
        0 <= k < ds.len() && ds[k].buffer == dep && (forall|j: int|
            #![trigger ds[j]]
            0 <= j < k ==> ds[j].buffer != dep) ==> resolved(ds, dep, 0) == ds[k].source,
{
    lemma_resolved(ds, dep, 0);
}

/// How many control edges the first `n` nodes have.
pub open spec fn gates_before(t: Seq<TopoView>, n: nat) -> nat
    decreases n,
{
    if n == 0 {
        0
    } else {
        gates_before(t, (n - 1) as nat) + t[n - 1].gates.len()
    }
}

proof fn lemma_gate_at(t: Seq<TopoView>, n: nat, i: int, k: int)
    requires
        0 <= i < n <= t.len(),
        0 <= k < t[i].gates.len(),
    ensures
        all_gates(t, n).len() == gates_before(t, n),
        gates_before(t, i as nat) + k < gates_before(t, n),
        all_gates(t, n)[gates_before(t, i as nat) + k] == t[i].gates[k],
    decreases n,
{
    lemma_gates_len(t, n);
    lemma_gates_len(t, (n - 1) as nat);
    if i < n - 1 {
        lemma_gate_at(t, (n - 1) as nat, i, k);
    }
}

proof fn lemma_gates_len(t: Seq<TopoView>, n: nat)
    ensures
        all_gates(t, n).len() == gates_before(t, n),
    decreases n,
{
    if n > 0 {
        lemma_gates_len(t, (n - 1) as nat);
    }
}

/// A node has that gate.
pub open spec fn is_gate(t: Seq<TopoView>, g: Seq<char>) -> bool {
    exists|i: int, k: int|
        #![trigger t[i].gates[k]]
        0 <= i < t.len() && 0 <= k < t[i].gates.len() && t[i].gates[k] == g
}

proof fn lemma_gate_of(t: Seq<TopoView>, n: nat, x: int)
    requires
        n <= t.len(),
        0 <= x < all_gates(t, n).len(),
    ensures
        is_gate(t, all_gates(t, n)[x]),
    decreases n,
{
    if n > 0 {
        let r = all_gates(t, (n - 1) as nat);
        let z = all_gates(t, n);
        if x < r.len() {
            lemma_gate_of(t, (n - 1) as nat, x);
            assert(z[x] == r[x]);
        } else {
            assert(z[x] == t[n - 1].gates[x - r.len()]);
        }
    }
}

/// The panel's gates are the nodes' gates one after the other, none left out and none added.
pub proof fn the_gates_are_those_of_the_nodes(t: Seq<TopoView>, i: int, k: int, g: Seq<char>)
    ensures
        board(t).gates.len() == gates_before(t, t.len()),
        0 <= i < t.len() && 0 <= k < t[i].gates.len() ==> {
            let x = gates_before(t, i as nat) + k;
            x < board(t).gates.len() && board(t).gates[x] == t[i].gates[k]
        },
        board(t).gates.contains(g) <==> is_gate(t, g),
{
    let n = t.len();
    let z = all_gates(t, n);
    assert(board(t).gates == z);
    lemma_gates_len(t, n);
    if 0 <= i < t.len() && 0 <= k < t[i].gates.len() {
        lemma_gate_at(t, n, i, k);
    }
    if z.contains(g) {
        let x = choose|x: int| 0 <= x < z.len() && z[x] == g;
        lemma_gate_of(t, n, x);
    }
    if is_gate(t, g) {
        let (j, m) = choose|j: int, m: int|
            #![trigger t[j].gates[m]]
            0 <= j < t.len() && 0 <= m < t[j].gates.len() && t[j].gates[m] == g;
        lemma_gate_at(t, n, j, m);
        assert(z[gates_before(t, j as nat) + m] == g);
    }
}

/// Node `d` is the last before `n` that goes by the name.
pub open spec fn goes_by(t: Seq<TopoView>, name: Seq<char>, n: nat, d: int) -> bool {
    &&& 0 <= d < n
    &&& t[d].node == name
    &&& forall|e: int| #![trigger t[e]] d < e < n ==> t[e].node != name
}

/// Of two nodes of one name the later is meant.
pub proof fn a_name_means_its_newest_node(t: Seq<TopoView>, name: Seq<char>, n: nat)
    requires
        n <= t.len(),
    ensures
        match newest_named(t, name, n) {
            Some(d) => goes_by(t, name, n, d as int),
            None => forall|e: int| #![trigger t[e]] 0 <= e < n ==> t[e].node != name,
        },
    decreases n,
{
    if n > 0 && t[n - 1].node != name {
        a_name_means_its_newest_node(t, name, (n - 1) as nat);
    }
}

/// A node before `n` goes by the name.
pub open spec fn stands_before(t: Seq<TopoView>, name: Seq<char>, n: int) -> bool {
    exists|d: int| #![trigger t[d]] 0 <= d < n && t[d].node == name
}

proof fn lemma_stands_before(t: Seq<TopoView>, name: Seq<char>, n: nat)
    requires
        n <= t.len(),
    ensures
        newest_named(t, name, n) is Some <==> stands_before(t, name, n as int),
{
    a_name_means_its_newest_node(t, name, n);
    if newest_named(t, name, n) is Some {
        let d = newest_named(t, name, n)->Some_0 as int;
        assert(t[d].node == name);
    }
}

/// The nodes come in step order exactly where each dependency's card stands before the node.
pub proof fn step_order_puts_cards_first(t: Seq<TopoView>, ds: Seq<DockView>, n: nat)
    requires
        n <= t.len(),
    ensures
        in_order(t, ds, n) <==> forall|i: int, k: int|
            #![trigger t[i].deps[k]]
            0 <= i < n && 0 <= k < t[i].deps.len() ==> stands_before(
                t,
                resolved(ds, t[i].deps[k], 0),
                i,
            ),
{
    assert forall|i: int, k: int| #![trigger t[i].deps[k]] 0 <= i < n && 0 <= k
        < t[i].deps.len() implies (newest_named(t, resolved(ds, t[i].deps[k], 0), i as nat) is Some
        <==> stands_before(t, resolved(ds, t[i].deps[k], 0), i)) by {
        lemma_stands_before(t, resolved(ds, t[i].deps[k], 0), i as nat);
    }
    let first = forall|i: int, k: int|
        #![trigger t[i].deps[k]]
        0 <= i < n && 0 <= k < t[i].deps.len() ==> stands_before(t, resolved(ds, t[i].deps[k], 0), i);
    if first {
        assert forall|i: int, k: int| #![trigger t[i].deps[k]] 0 <= i < n && 0 <= k
            < t[i].deps.len() implies newest_named(t, resolved(ds, t[i].deps[k], 0), i as nat) is Some by {
            assert(stands_before(t, resolved(ds, t[i].deps[k], 0), i));
        }
    }
    if in_order(t, ds, n) {
        assert forall|i: int, k: int| #![trigger t[i].deps[k]] 0 <= i < n && 0 <= k
            < t[i].deps.len() implies stands_before(t, resolved(ds, t[i].deps[k], 0), i) by {
            assert(newest_named(t, resolved(ds, t[i].deps[k], 0), i as nat) is Some);
        }
    }
}

proof fn lemma_deepest(
    t: Seq<TopoView>,
    ds: Seq<DockView>,
    ls: Seq<nat>,
    deps: Seq<Seq<char>>,
)
    requires
        ls.len() <= t.len(),
        forall|k: int|
            #![trigger deps[k]]
            0 <= k < deps.len() ==> newest_named(t, resolved(ds, deps[k], 0), ls.len()) is Some,
    ensures
        deps.len() == 0 ==> past_deepest(t, ds, ls, deps) == 0,
        deps.len() > 0 ==> exists|k: int, d: int|
            #![trigger deps[k], ls[d]]
            0 <= k < deps.len() && goes_by(t, resolved(ds, deps[k], 0), ls.len(), d) && past_deepest(
                t,
                ds,
                ls,
                deps,
            ) == ls[d] + 1,
        forall|k: int, d: int|
            #![trigger deps[k], ls[d]]
            0 <= k < deps.len() && goes_by(t, resolved(ds, deps[k], 0), ls.len(), d) ==> past_deepest(
                t,
                ds,
                ls,
                deps,
            ) > ls[d],
    decreases deps.len(),
{
    if deps.len() > 0 {
        let rest = deps.drop_last();
        assert forall|k: int| #![trigger rest[k]] 0 <= k < rest.len() implies newest_named(
            t,
            resolved(ds, rest[k], 0),
            ls.len(),
        ) is Some by {
            assert(rest[k] == deps[k]);
        }
        lemma_deepest(t, ds, ls, rest);
        let q = deps.len() - 1;
        let name = resolved(ds, deps[q], 0);
        assert(deps.last() == deps[q]);
        a_name_means_its_newest_node(t, name, ls.len());
        let e = newest_named(t, name, ls.len())->Some_0 as int;
        let r = past_deepest(t, ds, ls, rest);
        let z = past_deepest(t, ds, ls, deps);
        if ls[e] + 1 >= r {
            assert(goes_by(t, resolved(ds, deps[q], 0), ls.len(), e));
            assert(z == ls[e] + 1);
        } else {
            assert(rest.len() > 0);
            let (k, d) = choose|k: int, d: int|
                #![trigger rest[k], ls[d]]
                0 <= k < rest.len() && goes_by(t, resolved(ds, rest[k], 0), ls.len(), d) && r == ls[d]
                    + 1;
            assert(deps[k] == rest[k]);
            assert(z == ls[d] + 1);
        }
        assert forall|k: int, d: int|
            #![trigger deps[k], ls[d]]
            0 <= k < deps.len() && goes_by(t, resolved(ds, deps[k], 0), ls.len(), d) implies z
            > ls[d] by {
            if k < q {
                assert(rest[k] == deps[k]);
            } else {
                if d < e {
                    assert(t[e].node != name);
                }
                if e < d {
                    assert(t[d].node != name);
                }
            }
        }
    }
}

proof fn lemma_levels_grow(t: Seq<TopoView>, ds: Seq<DockView>, n: nat, m: nat)
    requires
        m <= n,
    ensures
        levels(t, ds, n).len() == n,
        levels(t, ds, n).take(m as int) == levels(t, ds, m),
    decreases n,
{
    if n > 0 {
        if m < n {
            lemma_levels_grow(t, ds, (n - 1) as nat, m);
            assert(levels(t, ds, n).take(m as int) =~= levels(t, ds, (n - 1) as nat).take(m as int));
        } else {
            lemma_levels_grow(t, ds, (n - 1) as nat, (n - 1) as nat);
            assert(levels(t, ds, n).take(m as int) =~= levels(t, ds, n));
        }
    } else {
        assert(levels(t, ds, n).take(0) =~= levels(t, ds, 0));
    }
}

/// A node stands one past the deepest card it depends on, and at the very left where it depends on none.
pub proof fn a_node_stands_one_past_its_deepest(t: Seq<TopoView>, ds: Seq<DockView>, i: int)
    requires
        0 <= i < t.len(),
        in_order(t, ds, t.len()),
    ensures
        ({
            let ls = levels(t, ds, t.len());
            let deps = t[i].deps;
            &&& ls.len() == t.len()
            &&& deps.len() == 0 ==> ls[i] == 0
            &&& deps.len() > 0 ==> exists|k: int, d: int|
                #![trigger deps[k], ls[d]]
                0 <= k < deps.len() && goes_by(t, resolved(ds, deps[k], 0), i as nat, d) && ls[i]
                    == ls[d] + 1
            &&& forall|k: int, d: int|
                #![trigger deps[k], ls[d]]
                0 <= k < deps.len() && goes_by(t, resolved(ds, deps[k], 0), i as nat, d) ==> ls[i]
                    > ls[d]
        }),
{
    let n = t.len();
    let all = levels(t, ds, n);
    let ls = levels(t, ds, i as nat);
    let deps = t[i].deps;
    lemma_levels_grow(t, ds, n, i as nat);
    lemma_levels_grow(t, ds, n, (i + 1) as nat);
    lemma_levels_grow(t, ds, i as nat, i as nat);
    assert(all.take(i + 1)[i] == all[i]);
    assert forall|k: int| #![trigger deps[k]] 0 <= k < deps.len() implies newest_named(
        t,
        resolved(ds, deps[k], 0),
        ls.len(),
    ) is Some by {
        assert(newest_named(t, resolved(ds, t[i].deps[k], 0), i as nat) is Some);
    }
    lemma_deepest(t, ds, ls, deps);
    assert forall|d: int| #![trigger all[d]] 0 <= d < i implies all[d] == ls[d] by {
        assert(all.take(i)[d] == all[d]);
    }
    if deps.len() > 0 {
        let (k, d) = choose|k: int, d: int|
            #![trigger deps[k], ls[d]]
            0 <= k < deps.len() && goes_by(t, resolved(ds, deps[k], 0), ls.len(), d) && past_deepest(
                t,
                ds,
                ls,
                deps,
            ) == ls[d] + 1;
        assert(all[d] == ls[d]);
        assert(deps[k] == deps[k]);
    }
    assert forall|k: int, d: int|
        #![trigger deps[k], all[d]]
        0 <= k < deps.len() && goes_by(t, resolved(ds, deps[k], 0), i as nat, d) implies all[i]
        > all[d] by {
        assert(all[d] == ls[d]);
        assert(deps[k] == deps[k]);
    }
}

proof fn lemma_a_column(ls: Seq<nat>, drawn: Seq<bool>, l: nat, n: nat)
    requires
        n <= ls.len(),
        n <= drawn.len(),
    ensures
        forall|i: nat| #[trigger]
            column(ls, drawn, l, n).contains(i) <==> i < n && drawn[i as int] && ls[i as int] == l,
        forall|x: int, y: int|
            #![trigger column(ls, drawn, l, n)[x], column(ls, drawn, l, n)[y]]
            0 <= x < y < column(ls, drawn, l, n).len() ==> column(ls, drawn, l, n)[x] < column(
                ls,
                drawn,
                l,
                n,
            )[y],
    decreases n,
{
    if n > 0 {
        let m = (n - 1) as nat;
        lemma_a_column(ls, drawn, l, m);
        let r = column(ls, drawn, l, m);
        let z = column(ls, drawn, l, n);
        if drawn[n - 1] && ls[n - 1] == l {
            assert forall|x: int| #![trigger r[x]] 0 <= x < r.len() implies r[x] < m by {
                assert(r.contains(r[x]));
            }
            assert forall|i: nat| #[trigger] z.contains(i) <==> i < n && drawn[i as int]
                && ls[i as int] == l by {
                if z.contains(i) {
                    let x = choose|x: int| 0 <= x < z.len() && z[x] == i;
                    if x < r.len() {
                        assert(r[x] == i);
                        assert(r.contains(i));
                    }
                }
                if i < n && drawn[i as int] && ls[i as int] == l {
                    if i == m {
                        assert(z[r.len() as int] == m);
                    } else {
                        assert(r.contains(i));
                        let x = choose|x: int| 0 <= x < r.len() && r[x] == i;
                        assert(z[x] == i);
                    }
                }
            }
        }
    }
}

proof fn lemma_breadth(ls: Seq<nat>, drawn: Seq<bool>, n: nat)
    requires
        n <= ls.len(),
        n <= drawn.len(),
    ensures
        forall|i: int| #![trigger ls[i]] 0 <= i < n && drawn[i] ==> ls[i] < breadth(ls, drawn, n),
        breadth(ls, drawn, n) > 0 ==> exists|i: int|
            #![trigger ls[i]]
            0 <= i < n && drawn[i] && ls[i] + 1 == breadth(ls, drawn, n),
    decreases n,
{
    if n > 0 {
        let m = (n - 1) as nat;
        lemma_breadth(ls, drawn, m);
        if drawn[n - 1] && ls[n - 1] >= breadth(ls, drawn, m) {
            assert(ls[n - 1] + 1 == breadth(ls, drawn, n));
        } else if breadth(ls, drawn, n) > 0 {
            let i = choose|i: int|
                #![trigger ls[i]]
                0 <= i < m && drawn[i] && ls[i] + 1 == breadth(ls, drawn, m);
            assert(ls[i] + 1 == breadth(ls, drawn, n));
        }
    }
}

/// The columns hold the marked nodes by level, each once, in order; there are as many as the deepest of
/// them needs.
pub open spec fn laid_out(cs: Seq<Seq<nat>>, ls: Seq<nat>, marked: spec_fn(int) -> bool) -> bool {
    &&& forall|l: int, i: nat|
        #![trigger cs[l].contains(i)]
        0 <= l < cs.len() ==> (cs[l].contains(i) <==> i < ls.len() && marked(i as int) && ls[i as int]
            == l)
    &&& forall|l: int, x: int, y: int|
        #![trigger cs[l][x], cs[l][y]]
        0 <= l < cs.len() && 0 <= x < y < cs[l].len() ==> cs[l][x] < cs[l][y]
    &&& forall|i: int| #![trigger ls[i]] 0 <= i < ls.len() && marked(i) ==> ls[i] < cs.len()
    &&& cs.len() > 0 ==> cs.last().len() > 0
}

proof fn lemma_laid_out(ls: Seq<nat>, drawn: Seq<bool>, marked: spec_fn(int) -> bool)
    requires
        drawn.len() == ls.len(),
        forall|i: int| #![trigger drawn[i]] 0 <= i < drawn.len() ==> drawn[i] == marked(i),
    ensures
        laid_out(columns(ls, drawn, ls.len()), ls, marked),
{
    let n = ls.len();
    let cs = columns(ls, drawn, n);
    assert forall|l: int, i: nat| #![trigger cs[l].contains(i)] 0 <= l < cs.len() implies (
    cs[l].contains(i) <==> i < ls.len() && marked(i as int) && ls[i as int] == l) by {
        lemma_a_column(ls, drawn, l as nat, n);
        assert(cs[l] == column(ls, drawn, l as nat, n));
        if i < n {
            assert(drawn[i as int] == marked(i as int));
        }
    }
    assert forall|l: int, x: int, y: int|
        #![trigger cs[l][x], cs[l][y]]
        0 <= l < cs.len() && 0 <= x < y < cs[l].len() implies cs[l][x] < cs[l][y] by {
        lemma_a_column(ls, drawn, l as nat, n);
        assert(cs[l] == column(ls, drawn, l as nat, n));
    }
    lemma_breadth(ls, drawn, n);
    assert forall|i: int| #![trigger ls[i]] 0 <= i < ls.len() && marked(i) implies ls[i]
        < cs.len() by {
        assert(drawn[i]);
    }
    if cs.len() > 0 {
        let i = choose|i: int|
            #![trigger ls[i]]
            0 <= i < n && drawn[i] && ls[i] + 1 == breadth(ls, drawn, n);
        let l = cs.len() - 1;
        lemma_a_column(ls, drawn, l as nat, n);
        assert(cs.last() == column(ls, drawn, l as nat, n));
        assert(cs.last().contains(i as nat));
    }
}

/// The node is nobody's gate and no docked buffer.
pub open spec fn has_a_card(t: Seq<TopoView>, i: int) -> bool {
    &&& !is_gate(t, t[i].node)
    &&& forall|k: int|
        #![trigger board(t).docks[k]]
        0 <= k < board(t).docks.len() ==> board(t).docks[k].buffer != t[i].node
}

proof fn lemma_carded(t: Seq<TopoView>, i: int)
    requires
        0 <= i < t.len(),
    ensures
        carded(t, docks(t, t.len()))[i] == has_a_card(t, i),
{
    the_gates_are_those_of_the_nodes(t, 0, 0, t[i].node);
    let ds = docks(t, t.len());
    assert(board(t).docks == ds);
    if is_docked(ds, t[i].node) {
        let k = choose|k: int| #![trigger ds[k]] 0 <= k < ds.len() && ds[k].buffer == t[i].node;
        assert(board(t).docks[k].buffer == t[i].node);
    }
}

/// Every node but the gates and the docked buffers has a card, in the column of its level, the columns
/// each in step order.
pub proof fn a_board_lays_out_its_cards(t: Seq<TopoView>)
    ensures
        board(t).gates == all_gates(t, t.len()),
        board(t).docks == docks(t, t.len()),
        laid_out(
            board(t).columns,
            levels(t, board(t).docks, t.len()),
            |i: int| has_a_card(t, i),
        ),
{
    let ds = docks(t, t.len());
    let ls = levels(t, ds, t.len());
    lemma_levels_grow(t, ds, t.len(), 0);
    assert forall|i: int| #![trigger carded(t, ds)[i]] 0 <= i < t.len() implies carded(t, ds)[i]
        == has_a_card(t, i) by {
        lemma_carded(t, i);
    }
    lemma_laid_out(ls, carded(t, ds), |i: int| has_a_card(t, i));
}

/// On the plain panel every node has a card, in the column of its level over the bare names.
pub proof fn a_plain_board_lays_out_every_node(t: Seq<TopoView>, dep: Seq<char>)
    ensures
        laid_out(plain_columns(t), levels(t, Seq::empty(), t.len()), |i: int| true),
        resolved(Seq::empty(), dep, 0) == dep,
{
    lemma_levels_grow(t, Seq::empty(), t.len(), 0);
    lemma_laid_out(
        levels(t, Seq::empty(), t.len()),
        Seq::new(t.len(), |i: int| true),
        |i: int| true,
    );
}

proof fn lemma_first_named(t: Seq<TopoView>, name: Seq<char>, from: nat)
    ensures
        match named_first(t, name, from) {
            Some(h) => from <= h < t.len() && t[h as int].node == name && forall|j: int|
                #![trigger t[j]]
                from <= j < h ==> t[j].node != name,
            None => forall|j: int| #![trigger t[j]] from <= j < t.len() ==> t[j].node != name,
        },
    decreases t.len() - from,
{
    if from < t.len() && t[from as int].node != name {
        lemma_first_named(t, name, from + 1);
    }
}

/// Node `h` is the first that goes by the name.
pub open spec fn is_first(t: Seq<TopoView>, name: Seq<char>, h: int) -> bool {
    &&& 0 <= h < t.len()
    &&& t[h].node == name
    &&& forall|j: int| #![trigger t[j]] 0 <= j < h ==> t[j].node != name
}

/// The first node of that name is there and holds one element.
pub open spec fn has_one_cell(t: Seq<TopoView>, name: Seq<char>) -> bool {
    exists|h: int| #[trigger] is_first(t, name, h) && product(t[h].dims) == 1
}

proof fn lemma_one_cell(t: Seq<TopoView>, name: Seq<char>)
    ensures
        is_scalar(t, name) <==> has_one_cell(t, name),
{
    lemma_first_named(t, name, 0);
    if is_scalar(t, name) {
        let h = named_first(t, name, 0)->Some_0 as int;
        a_shape_holds_its_product(t[h].dims);
        assert(is_first(t, name, h));
    }
    if has_one_cell(t, name) {
        let h = choose|h: int| #[trigger] is_first(t, name, h) && product(t[h].dims) == 1;
        a_shape_holds_its_product(t[h].dims);
        assert(t[h].node == name);
        let f = named_first(t, name, 0)->Some_0 as int;
        if f < h {
            assert(t[f].node != name);
        }
        if h < f {
            assert(t[h].node != name);
        }
    }
}

/// The gates fit their glyph exactly where every gate of a card is a node of one element.
pub proof fn a_glyph_has_one_cell(t: Seq<TopoView>)
    ensures
        scalar_gates(t) <==> forall|i: int, k: int|
            #![trigger t[i].gates[k]]
            0 <= i < t.len() && has_a_card(t, i) && 0 <= k < t[i].gates.len() ==> has_one_cell(
                t,
                t[i].gates[k],
            ),
{
    let cells = forall|i: int, k: int|
        #![trigger t[i].gates[k]]
        0 <= i < t.len() && has_a_card(t, i) && 0 <= k < t[i].gates.len() ==> has_one_cell(
            t,
            t[i].gates[k],
        );
    if cells {
        assert forall|i: int, k: int| #![trigger t[i].gates[k]] 0 <= i < t.len() && carded(
            t,
            docks(t, t.len()),
        )[i] && 0 <= k < t[i].gates.len() implies is_scalar(t, t[i].gates[k]) by {
            lemma_carded(t, i);
            lemma_one_cell(t, t[i].gates[k]);
        }
    }
    if scalar_gates(t) {
        assert forall|i: int, k: int| #![trigger t[i].gates[k]] 0 <= i < t.len() && has_a_card(t, i)
            && 0 <= k < t[i].gates.len() implies has_one_cell(t, t[i].gates[k]) by {
            lemma_carded(t, i);
            lemma_one_cell(t, t[i].gates[k]);
        }
    }
}

/// A graph can be drawn exactly where no gate is claimed twice, every docked buffer has a dependency, no
/// dependency is a gate, and each dependency's card stands before its node.
pub proof fn a_graph_is_drawn_when_it_can_be(t: Seq<TopoView>)
    ensures
        drawable(t) <==> {
            &&& forall|x: int, y: int|
                #![trigger board(t).gates[x], board(t).gates[y]]
                0 <= x < y < board(t).gates.len() ==> board(t).gates[x] != board(t).gates[y]
            &&& forall|i: int|
                #![trigger t[i]]
                0 <= i < t.len() && "Buffer<"@.is_prefix_of(t[i].node) && has_depth(t[i].node)
                    ==> t[i].deps.len() > 0
            &&& forall|i: int, k: int|
                #![trigger t[i].deps[k]]
                0 <= i < t.len() && 0 <= k < t[i].deps.len() ==> !is_gate(t, t[i].deps[k])
            &&& forall|i: int, k: int|
                #![trigger t[i].deps[k]]
                0 <= i < t.len() && 0 <= k < t[i].deps.len() ==> stands_before(
                    t,
                    resolved(board(t).docks, t[i].deps[k], 0),
                    i,
                )
        },
{
    let g = all_gates(t, t.len());
    assert(board(t).gates == g);
    assert forall|d: Seq<char>| #[trigger] g.contains(d) <==> is_gate(t, d) by {
        the_gates_are_those_of_the_nodes(t, 0, 0, d);
    }
    step_order_puts_cards_first(t, docks(t, t.len()), t.len());
    assert forall|i: int| #![trigger t[i]] 0 <= i < t.len() implies (dock_of(t[i]) is Some <==>
    "Buffer<"@.is_prefix_of(t[i].node) && has_depth(t[i].node)) by {
        a_buffer_is_docked_on_its_series(t[i]);
    }
    assert((forall|x: int, y: int|
        #![trigger board(t).gates[x], board(t).gates[y]]
        0 <= x < y < g.len() ==> board(t).gates[x] != board(t).gates[y]) <==> g.no_duplicates()) by {
        if forall|x: int, y: int|
            #![trigger board(t).gates[x], board(t).gates[y]]
            0 <= x < y < g.len() ==> board(t).gates[x] != board(t).gates[y] {
            assert forall|x: int, y: int| 0 <= x < g.len() && 0 <= y < g.len() && x != y implies g[x]
                != g[y] by {
                if x < y {
                    assert(board(t).gates[x] != board(t).gates[y]);
                } else {
                    assert(board(t).gates[y] != board(t).gates[x]);
                }
            }
        }
    }
}

/// The first `d` lengths together.
pub open spec fn length_before(lens: Seq<usize>, d: nat) -> nat
    decreases d,
{
    if d == 0 {
        0
    } else {
        length_before(lens, (d - 1) as nat) + lens[d - 1] as nat
    }
}

proof fn lemma_length_shift(lens: Seq<usize>, d: nat)
    requires
        lens.len() > 0,
        d < lens.len(),
    ensures
        length_before(lens, d + 1) == lens[0] + length_before(lens.drop_first(), d),
    decreases d,
{
    if d > 0 {
        lemma_length_shift(lens, (d - 1) as nat);
        assert(lens.drop_first()[d - 1] == lens[d as int]);
    } else {
        assert(length_before(lens, 0) == 0);
        assert(length_before(lens, 1) == length_before(lens, 0) + lens[0]);
    }
}

proof fn lemma_total(lens: Seq<usize>)
    ensures
        total_len(lens) == length_before(lens, lens.len()),
    decreases lens.len(),
{
    if lens.len() > 0 {
        lemma_total(lens.drop_first());
        lemma_length_shift(lens, (lens.len() - 1) as nat);
    }
}

/// A slot of the dependencies laid end to end is one of their elements: the lengths before its dependency
/// and its place in it make up the slot.
pub proof fn a_slot_is_found_by_length(lens: Seq<usize>, j: nat)
    requires
        j < length_before(lens, lens.len()),
    ensures
        ({
            let (d, k) = slot_of(lens, j);
            &&& d < lens.len()
            &&& k < lens[d as int]
            &&& length_before(lens, d) + k == j
        }),
    decreases lens.len(),
{
    lemma_total(lens);
    if lens.len() > 0 && j >= lens[0] {
        let rest = lens.drop_first();
        lemma_length_shift(lens, (lens.len() - 1) as nat);
        a_slot_is_found_by_length(rest, (j - lens[0]) as nat);
        let (d, k) = slot_of(rest, (j - lens[0]) as nat);
        lemma_length_shift(lens, d);
        assert(rest[d as int] == lens[d as int + 1]);
    }
}

/// The bits are a zero's, of either sign.
pub open spec fn is_zero_value(x: Bits) -> bool {
    x == 0 || x == 0x8000_0000_0000_0000
}

/// The entry is there and is not zero.
pub open spec fn weighs(e: Option<Bits>) -> bool {
    e matches Some(w) && !is_zero_value(w)
}

/// How many of the first `n` entries weigh anything.
pub open spec fn weighing_before(jac: Seq<Option<Bits>>, n: nat) -> nat
    decreases n,
{
    if n == 0 {
        0
    } else {
        weighing_before(jac, (n - 1) as nat) + if weighs(jac[n - 1]) {
            1nat
        } else {
            0nat
        }
    }
}

/// The edge is of entry `f`: its weight, its row, and in that row its dependency's element.
pub open spec fn is_edge_of(l: Link, jac: Seq<Option<Bits>>, lens: Seq<usize>, f: nat) -> bool {
    &&& jac[f as int] == Some(l.w)
    &&& l.dep < lens.len()
    &&& l.from < lens[l.dep as int]
    &&& f == l.to * length_before(lens, lens.len()) + length_before(lens, l.dep as nat) + l.from
}

proof fn lemma_edges(jac: Seq<Option<Bits>>, lens: Seq<usize>, n: nat, f: nat)
    requires
        n <= jac.len() <= usize::MAX,
        0 < length_before(lens, lens.len()) <= usize::MAX,
        lens.len() <= usize::MAX,
    ensures
        links(jac, lens, n).len() == weighing_before(jac, n),
        f < n && weighs(jac[f as int]) ==> weighing_before(jac, f) < weighing_before(jac, n)
            && is_edge_of(links(jac, lens, n)[weighing_before(jac, f) as int], jac, lens, f),
    decreases n,
{
    if n > 0 {
        let m = (n - 1) as nat;
        lemma_edges(jac, lens, m, f);
        lemma_total(lens);
        let t = total_len(lens);
        match jac[n - 1] {
            Some(w) => {
                assert(crate::floats::zero(w) <==> is_zero_value(w)) by {
                    assert(w % 0x8000_0000_0000_0000 == 0 <==> w == 0 || w == 0x8000_0000_0000_0000);
                }
                if weighs(jac[n - 1]) {
                    vstd::arithmetic::div_mod::lemma_fundamental_div_mod(m as int, t as int);
                    vstd::arithmetic::div_mod::lemma_mod_bound(m as int, t as int);
                    vstd::arithmetic::div_mod::lemma_div_is_ordered_by_denominator(
                        m as int,
                        1,
                        t as int,
                    );
                    vstd::arithmetic::div_mod::lemma_div_pos_is_pos(m as int, t as int);
                    a_slot_is_found_by_length(lens, m % t);
                    let (d, k) = slot_of(lens, m % t);
                    let l = links(jac, lens, n).last();
                    assert(l.to == m / t);
                    assert(l.to * t == t * (m / t)) by (nonlinear_arith)
                        requires
                            l.to == m / t,
                    ;
                    assert(is_edge_of(l, jac, lens, m));
                }
            },
            None => {},
        }
    }
}

/// A Jacobian draws one edge for each entry that is not zero, in order, and no other: from the element of
/// the dependency its column stands for to the element its row does, with its weight.
pub proof fn an_entry_draws_its_edge(jac: Seq<Option<Bits>>, lens: Seq<usize>, f: nat)
    requires
        jac.len() <= usize::MAX,
        0 < length_before(lens, lens.len()) <= usize::MAX,
        lens.len() <= usize::MAX,
    ensures
        links(jac, lens, jac.len()).len() == weighing_before(jac, jac.len()),
        f < jac.len() && weighs(jac[f as int]) ==> weighing_before(jac, f) < weighing_before(
            jac,
            jac.len(),
        ) && is_edge_of(
            links(jac, lens, jac.len())[weighing_before(jac, f) as int],
            jac,
            lens,
            f,
        ),
{
    lemma_edges(jac, lens, jac.len(), f);
}

/// The newest node of that name has so many elements.
pub open spec fn is_size(t: Seq<TopoView>, name: Seq<char>, n: nat) -> bool {
    exists|d: int| #[trigger] goes_by(t, name, t.len(), d) && n == product(t[d].dims)
}

proof fn lemma_size(t: Seq<TopoView>, dep: Seq<char>)
    requires
        newest_named(t, dep, t.len()) is Some,
    ensures
        is_size(t, dep, dep_len(t, dep)),
{
    a_name_means_its_newest_node(t, dep, t.len());
    let d = newest_named(t, dep, t.len())->Some_0 as int;
    a_shape_holds_its_product(t[d].dims);
    assert(goes_by(t, dep, t.len(), d));
}

/// A Jacobian's columns are its dependencies' elements: a name counts as known where a node goes by it,
/// its size is that node's, and an activation draws the entries of its own Jacobian over those sizes.
pub proof fn an_activation_draws_its_jacobian(a: ActivationView, t: Seq<TopoView>)
    ensures
        known_deps(t, a.deps) <==> forall|k: int|
            #![trigger a.deps[k]]
            0 <= k < a.deps.len() ==> stands_before(t, a.deps[k], t.len() as int),
        known_deps(t, a.deps) ==> forall|k: int|
            #![trigger a.deps[k]]
            0 <= k < a.deps.len() ==> is_size(t, a.deps[k], dep_len(t, a.deps[k])),
        known_deps(t, a.deps) && a.jac is Some && shaped(a, t) ==> {
            let lens = dep_lens(t, a.deps);
            &&& lens.len() == a.deps.len()
            &&& forall|k: int|
                #![trigger a.deps[k]]
                0 <= k < a.deps.len() ==> is_size(t, a.deps[k], lens[k] as nat)
            &&& a.jac->Some_0.len() == product(a.dims) * length_before(lens, lens.len())
            &&& activation_links(a, t) == links(a.jac->Some_0, lens, a.jac->Some_0.len())
        },
        a.jac is None ==> activation_links(a, t).len() == 0,
{
    assert forall|k: int| #![trigger a.deps[k]] 0 <= k < a.deps.len() implies (newest_named(
        t,
        a.deps[k],
        t.len(),
    ) is Some <==> stands_before(t, a.deps[k], t.len() as int)) by {
        lemma_stands_before(t, a.deps[k], t.len());
    }
    if known_deps(t, a.deps) {
        assert forall|k: int| #![trigger a.deps[k]] 0 <= k < a.deps.len() implies is_size(
            t,
            a.deps[k],
            dep_len(t, a.deps[k]),
        ) by {
            assert(newest_named(t, a.deps[k], t.len()) is Some);
            lemma_size(t, a.deps[k]);
        }
        if a.jac is Some && shaped(a, t) {
            let lens = dep_lens(t, a.deps);
            assert forall|k: int| #![trigger a.deps[k]] 0 <= k < a.deps.len() implies is_size(
                t,
                a.deps[k],
                lens[k] as nat,
            ) by {
                assert(dep_len(t, a.deps[k]) <= usize::MAX);
            }
            lemma_total(lens);
            a_shape_holds_its_product(a.dims);
        }
    }
}

/// An edge is shown with nothing under the pointer; with a card, where either end is of its node; with a
/// cell, where either end is that element of its node.
pub proof fn the_pointer_picks_the_edges(h: Hover, from: EndView, to: EndView)
    ensures
        h is Nothing ==> touches(h@, from, to),
        h matches Hover::Card(n) ==> (touches(h@, from, to) <==> from.node == n@ || to.node == n@),
        h matches Hover::Cell(n, i) ==> (touches(h@, from, to) <==> (from.node == n@ && from.slot == i)
            || (to.node == n@ && to.slot == i)),
{
}

/// The node of that name under the pointer.
pub open spec fn is_under(h: Hover, name: Seq<char>) -> bool {
    match h {
        Hover::Nothing => false,
        Hover::Card(n) => n@ == name,
        Hover::Cell(n, _) => n@ == name,
    }
}

/// Under the pointer a node lights up the cards of its dependencies, in order, and names the node it is
/// drawn on with whether that has plots.
pub proof fn the_pointer_lights_its_dependencies(
    h: Hover,
    name: Seq<char>,
    t: Seq<TopoView>,
    ds: Seq<DockView>,
    i: int,
    k: int,
)
    ensures
        h is Nothing ==> hovered_cards(h@, t, ds).len() == 0 && pointed_at(h@, t, ds) is None,
        is_under(h, name) && is_first(t, name, i) ==> hovered_cards(h@, t, ds).len() == t[i].deps.len()
            && (0 <= k < t[i].deps.len() ==> hovered_cards(h@, t, ds)[k] == resolved(
            ds,
            t[i].deps[k],
            0,
        )),
        is_under(h, name) && !stands_before(t, name, t.len() as int) ==> hovered_cards(h@, t, ds).len()
            == 0,
        is_under(h, name) && is_first(t, resolved(ds, name, 0), i) ==> pointed_at(h@, t, ds) == Some(
            (t[i].node, t[i].plots.len() > 0),
        ),
        is_under(h, name) && !stands_before(t, resolved(ds, name, 0), t.len() as int) ==> pointed_at(
            h@,
            t,
            ds,
        ) is None,
{
    let names = seq![name, resolved(ds, name, 0)];
    assert forall|x: int| #![trigger names[x]] 0 <= x < 2 implies (is_first(t, names[x], i)
        ==> named_first(t, names[x], 0) == Some(i as nat)) && (!stands_before(
        t,
        names[x],
        t.len() as int,
    ) ==> named_first(t, names[x], 0) is None) by {
        lemma_first_named(t, names[x], 0);
        match named_first(t, names[x], 0) {
            Some(f) => {
                assert(t[f as int].node == names[x]);
                if is_first(t, names[x], i) {
                    if i < f {
                        assert(t[i].node != names[x]);
                    }
                }
            },
            None => {
                if is_first(t, names[x], i) {
                    assert(t[i].node != names[x]);
                }
            },
        }
    }
    assert(names[0] == name && names[1] == resolved(ds, name, 0));
}

/// Of two activations of one name the newer is meant.
pub proof fn a_name_means_its_newest_activation(acts: Seq<ActivationView>, node: Seq<char>)
    ensures
        match act_named(acts, node) {
            Some(k) => k < acts.len() && acts[k as int].node == node && forall|j: int|
                #![trigger acts[j]]
                k < j < acts.len() ==> acts[j].node != node,
            None => forall|j: int| #![trigger acts[j]] 0 <= j < acts.len() ==> acts[j].node != node,
        },
    decreases acts.len(),
{
    if acts.len() > 0 {
        let d = acts.drop_last();
        assert(acts.last() == acts[acts.len() - 1]);
        if acts.last().node != node {
            a_name_means_its_newest_activation(d, node);
            assert forall|j: int| #![trigger acts[j]] 0 <= j < d.len() implies acts[j] == d[j] by {}
            assert forall|j: int| #![trigger d[j]] 0 <= j < d.len() implies acts[j] == d[j] by {}
        }
    }
}

/// A gate lets its node through exactly where it fired with a number that is not zero.
pub proof fn a_gate_opens_on_a_number(vals: Option<Seq<Option<Bits>>>)
    ensures
        gate_open(vals) <==> vals is Some && weighs(vals->Some_0[0]),
{
    if vals is Some && vals->Some_0[0] is Some {
        let w = vals->Some_0[0]->Some_0;
        assert(w % 0x8000_0000_0000_0000 == 0 <==> w == 0 || w == 0x8000_0000_0000_0000);
    }
}

} // verus!
