//! The graph as the panel draws it: one column per level, gates and buffers docked on the card they
//! belong to rather than drawn as peers.
use vstd::prelude::*;

use crate::api_types::{TopoNode, TopoView};
use crate::replay::{is_buffer, is_volume, named_first, volume};
use crate::text::{chars, contains, same, starts_with, string_of};

verus! {

/// The character has Unicode's `White_Space` property.
pub open spec fn whitespace(c: char) -> bool {
    let n = c as int;
    ||| 0x9 <= n <= 0xd
    ||| n == 0x20
    ||| n == 0x85
    ||| n == 0xa0
    ||| n == 0x1680
    ||| 0x2000 <= n <= 0x200a
    ||| n == 0x2028
    ||| n == 0x2029
    ||| n == 0x202f
    ||| n == 0x205f
    ||| n == 0x3000
}

/// `char::is_whitespace`: whether the character has Unicode's `White_Space` property, which a fixed
/// short list of characters has.
pub assume_specification[ char::is_whitespace ](c: char) -> (r: bool)
    ensures
        r == whitespace(c),
;

/// A character and whether it is white space.
#[derive(Clone, Copy)]
pub struct Spaced {
    pub c: char,
    pub space: bool,
}

/// `c` with its class.
pub open spec fn classed(c: char) -> Spaced {
    Spaced { c, space: whitespace(c) }
}

/// Every character of `s` with its class.
pub open spec fn spaced(s: Seq<char>) -> Seq<Spaced> {
    Seq::new(s.len(), |i: int| classed(s[i]))
}

/// The characters of `s`.
pub open spec fn unspaced(s: Seq<Spaced>) -> Seq<char> {
    Seq::new(s.len(), |i: int| s[i].c)
}

/// Without the white space it ends in.
pub open spec fn trim_end(s: Seq<Spaced>) -> Seq<Spaced>
    decreases s.len(),
{
    if s.len() > 0 && s.last().space {
        trim_end(s.drop_last())
    } else {
        s
    }
}

/// Without the white space it begins with.
pub open spec fn trim_start(s: Seq<Spaced>) -> Seq<Spaced>
    decreases s.len(),
{
    if s.len() > 0 && s[0].space {
        trim_start(s.drop_first())
    } else {
        s
    }
}

/// What follows the last comma, `None` without one.
pub open spec fn after_comma(s: Seq<Spaced>) -> Option<Seq<Spaced>>
    decreases s.len(),
{
    if s.len() == 0 {
        None
    } else if s.last().c == ',' {
        Some(Seq::empty())
    } else {
        match after_comma(s.drop_last()) {
            Some(r) => Some(r.push(s.last())),
            None => None,
        }
    }
}

/// The depth a buffer's name ends in: what stands between its last comma and its closing bracket.
pub open spec fn depth_in(s: Seq<Spaced>) -> Option<Seq<Spaced>> {
    if s.len() > 0 && s.last().c == '>' {
        match after_comma(s.drop_last()) {
            Some(r) => Some(trim_start(trim_end(r))),
            None => None,
        }
    } else {
        None
    }
}

/// A buffer docked on the card of the series it retains.
#[verifier::ext_equal]
pub struct DockView {
    pub source: Seq<char>,
    pub buffer: Seq<char>,
    pub depth: Seq<char>,
}

/// A node that is a buffer, docked on its one dependency.
pub open spec fn dock_of(n: TopoView) -> Option<DockView> {
    match depth_in(spaced(n.node)) {
        Some(d) => if is_buffer(n.node) {
            Some(DockView { source: n.deps[0], buffer: n.node, depth: unspaced(d) })
        } else {
            None
        },
        None => None,
    }
}

/// Where `source` already has a buffer docked.
pub open spec fn docked_at(ds: Seq<DockView>, source: Seq<char>, from: nat) -> Option<nat>
    decreases ds.len() - from,
{
    if from >= ds.len() {
        None
    } else if ds[from as int].source == source {
        Some(from)
    } else {
        docked_at(ds, source, from + 1)
    }
}

/// The docks with `d` on them: one buffer per series, the later one.
pub open spec fn with_dock(ds: Seq<DockView>, d: DockView) -> Seq<DockView> {
    match docked_at(ds, d.source, 0) {
        Some(k) => ds.update(k as int, d),
        None => ds.push(d),
    }
}

/// The buffers of the first `n` nodes, each on its series.
pub open spec fn docks(t: Seq<TopoView>, n: nat) -> Seq<DockView>
    decreases n,
{
    if n == 0 {
        Seq::empty()
    } else {
        let r = docks(t, (n - 1) as nat);
        match dock_of(t[n - 1]) {
            Some(d) => with_dock(r, d),
            None => r,
        }
    }
}

/// The buffer called `name` is docked somewhere.
pub open spec fn is_docked(ds: Seq<DockView>, name: Seq<char>) -> bool {
    exists|k: int| #![trigger ds[k]] 0 <= k < ds.len() && ds[k].buffer == name
}

/// The card a dependency is drawn from: a buffer's is that of the series it retains.
pub open spec fn resolved(ds: Seq<DockView>, dep: Seq<char>, from: nat) -> Seq<char>
    decreases ds.len() - from,
{
    if from >= ds.len() {
        dep
    } else if ds[from as int].buffer == dep {
        ds[from as int].source
    } else {
        resolved(ds, dep, from + 1)
    }
}

/// Every control edge of the first `n` nodes, in order.
pub open spec fn all_gates(t: Seq<TopoView>, n: nat) -> Seq<Seq<char>>
    decreases n,
{
    if n == 0 {
        Seq::empty()
    } else {
        all_gates(t, (n - 1) as nat) + t[n - 1].gates
    }
}

/// The newest node before `n` of that name.
pub open spec fn newest_named(t: Seq<TopoView>, name: Seq<char>, n: nat) -> Option<nat>
    decreases n,
{
    if n == 0 {
        None
    } else if t[n - 1].node == name {
        Some((n - 1) as nat)
    } else {
        newest_named(t, name, (n - 1) as nat)
    }
}

/// The level a node on these dependencies stands at: one past the deepest, zero without any.
pub open spec fn past_deepest(
    t: Seq<TopoView>,
    ds: Seq<DockView>,
    levels: Seq<nat>,
    deps: Seq<Seq<char>>,
) -> nat
    decreases deps.len(),
{
    if deps.len() == 0 {
        0
    } else {
        let r = past_deepest(t, ds, levels, deps.drop_last());
        let l = match newest_named(t, resolved(ds, deps.last(), 0), levels.len()) {
            Some(k) => levels[k as int] + 1,
            None => 0,
        };
        if l >= r {
            l
        } else {
            r
        }
    }
}

/// The levels of the first `n` nodes, over the drawn graph.
pub open spec fn levels(t: Seq<TopoView>, ds: Seq<DockView>, n: nat) -> Seq<nat>
    decreases n,
{
    if n == 0 {
        Seq::empty()
    } else {
        let r = levels(t, ds, (n - 1) as nat);
        r.push(past_deepest(t, ds, r, t[n - 1].deps))
    }
}

/// The nodes of column `l` among the first `n`, in order.
pub open spec fn column(ls: Seq<nat>, drawn: Seq<bool>, l: nat, n: nat) -> Seq<nat>
    decreases n,
{
    if n == 0 {
        Seq::empty()
    } else {
        let r = column(ls, drawn, l, (n - 1) as nat);
        if drawn[n - 1] && ls[n - 1] == l {
            r.push((n - 1) as nat)
        } else {
            r
        }
    }
}

/// How many columns the first `n` nodes take up.
pub open spec fn breadth(ls: Seq<nat>, drawn: Seq<bool>, n: nat) -> nat
    decreases n,
{
    if n == 0 {
        0
    } else {
        let r = breadth(ls, drawn, (n - 1) as nat);
        if drawn[n - 1] && ls[n - 1] >= r {
            ls[n - 1] + 1
        } else {
            r
        }
    }
}

/// The columns of the first `n` nodes.
pub open spec fn columns(ls: Seq<nat>, drawn: Seq<bool>, n: nat) -> Seq<Seq<nat>> {
    Seq::new(breadth(ls, drawn, n), |l: int| column(ls, drawn, l as nat, n))
}

/// Which nodes get a card of their own.
pub open spec fn carded(t: Seq<TopoView>, ds: Seq<DockView>) -> Seq<bool> {
    Seq::new(
        t.len(),
        |i: int| !all_gates(t, t.len()).contains(t[i].node) && !is_docked(ds, t[i].node),
    )
}

/// Every dependency of the first `n` nodes is drawn from a card before it.
pub open spec fn in_order(t: Seq<TopoView>, ds: Seq<DockView>, n: nat) -> bool {
    forall|i: int, k: int|
        #![trigger t[i].deps[k]]
        0 <= i < n && 0 <= k < t[i].deps.len() ==> newest_named(
            t,
            resolved(ds, t[i].deps[k], 0),
            i as nat,
        ) is Some
}

/// The graph can be drawn: a gate has a single owner and is nobody's dependency, a buffer has the one
/// dependency it retains, and the nodes come in step order.
pub open spec fn drawable(t: Seq<TopoView>) -> bool {
    &&& all_gates(t, t.len()).no_duplicates()
    &&& forall|i: int|
        #![trigger t[i]]
        0 <= i < t.len() && dock_of(t[i]) is Some ==> t[i].deps.len() > 0
    &&& forall|i: int, k: int|
        #![trigger t[i].deps[k]]
        0 <= i < t.len() && 0 <= k < t[i].deps.len() ==> !all_gates(t, t.len()).contains(
            t[i].deps[k],
        )
    &&& in_order(t, docks(t, t.len()), t.len())
}

/// Every gate docked on a card is a node of the graph, and holds a single element: the glyph has one cell.
pub open spec fn scalar_gates(t: Seq<TopoView>) -> bool {
    forall|i: int, k: int|
        #![trigger t[i].gates[k]]
        0 <= i < t.len() && carded(t, docks(t, t.len()))[i] && 0 <= k < t[i].gates.len()
            ==> is_scalar(t, t[i].gates[k])
}

/// The first node called `name` is there and holds a single element.
pub open spec fn is_scalar(t: Seq<TopoView>, name: Seq<char>) -> bool {
    match named_first(t, name, 0) {
        Some(h) => volume(t[h as int].dims) == 1,
        None => false,
    }
}

/// The whole panel.
#[verifier::ext_equal]
pub struct BoardView {
    pub gates: Seq<Seq<char>>,
    pub docks: Seq<DockView>,
    pub columns: Seq<Seq<nat>>,
}

/// The panel of a graph.
pub open spec fn board(t: Seq<TopoView>) -> BoardView {
    let ds = docks(t, t.len());
    BoardView {
        gates: all_gates(t, t.len()),
        docks: ds,
        columns: columns(levels(t, ds, t.len()), carded(t, ds), t.len()),
    }
}

/// A buffer docked on the card of the series it retains.
pub struct Dock {
    pub source: String,
    pub buffer: String,
    pub depth: String,
}

impl DeepView for Dock {
    type V = DockView;

    open spec fn deep_view(&self) -> DockView {
        DockView { source: self.source@, buffer: self.buffer@, depth: self.depth@ }
    }
}

/// The whole panel: the docked gates and buffers, and the cards' positions in the topology by column.
pub struct Board {
    pub gates: Vec<String>,
    pub docks: Vec<Dock>,
    pub columns: Vec<Vec<usize>>,
}

/// Numbers by column.
pub open spec fn grid(c: Seq<Vec<usize>>) -> Seq<Seq<nat>> {
    Seq::new(c.len(), |l: int| crate::tape::nats(c[l]@))
}

impl View for Board {
    type V = BoardView;

    open spec fn view(&self) -> BoardView {
        BoardView {
            gates: self.gates.deep_view(),
            docks: self.docks.deep_view(),
            columns: grid(self.columns@),
        }
    }
}

proof fn lemma_after_comma(s: Seq<Spaced>, k: int)
    requires
        -1 <= k < s.len(),
        k >= 0 ==> s[k].c == ',',
        forall|j: int| #![trigger s[j]] k < j < s.len() ==> s[j].c != ',',
    ensures
        after_comma(s) == if k >= 0 {
            Some(s.skip(k + 1))
        } else {
            None
        },
    decreases s.len(),
{
    if s.len() > 0 {
        let n = s.len() as int;
        if k == n - 1 {
            assert(s.skip(n) =~= Seq::empty());
        } else {
            assert(s[n - 1].c != ',');
            let d = s.drop_last();
            assert forall|j: int| #![trigger d[j]] k < j < d.len() implies d[j].c != ',' by {
                assert(d[j] == s[j]);
            }
            lemma_after_comma(d, k);
            if k >= 0 {
                assert(d.skip(k + 1).push(s.last()) =~= s.skip(k + 1));
            }
        }
    }
}

/// The depth a buffer's name ends in, on classed characters.
pub fn depth_of(s: &[Spaced]) -> (r: Option<Vec<char>>)
    ensures
        match r {
            Some(d) => depth_in(s@) matches Some(v) && d@ == unspaced(v),
            None => depth_in(s@) is None,
        },
{
    let n: usize = s.len();
    if n == 0 || s[n - 1].c != '>' {
        return None;
    }
    let ghost body = s@.drop_last();
    let mut k: usize = n - 1;
    while k > 0 && s[k - 1].c != ','
        invariant
            n == s@.len(),
            k <= n - 1,
            body == s@.drop_last(),
            forall|j: int| #![trigger body[j]] k <= j < body.len() ==> body[j].c != ',',
        decreases k,
    {
        assert(body[k - 1] == s@[k - 1]);
        k -= 1;
    }
    proof {
        if k > 0 {
            assert(body[k - 1] == s@[k - 1]);
        }
        lemma_after_comma(body, k - 1);
    }
    if k == 0 {
        return None;
    }
    let ghost tail = body.skip(k as int);
    let mut hi: usize = n - 1;
    proof {
        assert(tail =~= s@.subrange(k as int, n - 1));
    }
    while hi > k && s[hi - 1].space
        invariant
            n == s@.len(),
            0 < k <= hi <= n - 1,
            trim_end(s@.subrange(k as int, hi as int)) == trim_end(tail),
        decreases hi,
    {
        proof {
            let x = s@.subrange(k as int, hi as int);
            assert(x.last() == s@[hi - 1]);
            assert(x.drop_last() =~= s@.subrange(k as int, hi - 1));
        }
        hi -= 1;
    }
    let ghost ended = trim_end(tail);
    proof {
        let x = s@.subrange(k as int, hi as int);
        if hi > k {
            assert(x.last() == s@[hi - 1]);
        }
        assert(ended == x);
    }
    let mut lo: usize = k;
    while lo < hi && s[lo].space
        invariant
            n == s@.len(),
            k <= lo <= hi <= n - 1,
            trim_start(s@.subrange(lo as int, hi as int)) == trim_start(ended),
        decreases hi - lo,
    {
        proof {
            let x = s@.subrange(lo as int, hi as int);
            assert(x[0] == s@[lo as int]);
            assert(x.drop_first() =~= s@.subrange(lo + 1, hi as int));
        }
        lo += 1;
    }
    proof {
        let x = s@.subrange(lo as int, hi as int);
        if lo < hi {
            assert(x[0] == s@[lo as int]);
        }
        assert(trim_start(ended) == x);
    }
    let ghost want = s@.subrange(lo as int, hi as int);
    let mut out: Vec<char> = Vec::new();
    let mut i: usize = lo;
    while i < hi
        invariant
            lo <= i <= hi <= n - 1,
            n == s@.len(),
            want == s@.subrange(lo as int, hi as int),
            out@ == unspaced(want).take(i - lo),
        decreases hi - i,
    {
        out.push(s[i].c);
        assert(unspaced(want).take(i - lo).push(s@[i as int].c) =~= unspaced(want).take(i - lo + 1));
        i += 1;
    }
    assert(unspaced(want).take(hi - lo) =~= unspaced(want));
    Some(out)
}

/// `n` as a docked buffer, if it is one.
fn read_dock(n: &TopoNode) -> (r: Option<Dock>)
    requires
        dock_of(n.deep_view()) is Some ==> n.deps@.len() > 0,
    ensures
        match r {
            Some(d) => dock_of(n.deep_view()) == Some(d.deep_view()),
            None => dock_of(n.deep_view()) is None,
        },
{
    let cs: Vec<char> = chars(n.node.as_str());
    let mut sp: Vec<Spaced> = Vec::new();
    let mut i: usize = 0;
    while i < cs.len()
        invariant
            cs@ == n.node@,
            i <= cs@.len(),
            sp@ == spaced(n.node@).take(i as int),
        decreases cs@.len() - i,
    {
        let c: char = cs[i];
        sp.push(Spaced { c, space: c.is_whitespace() });
        assert(spaced(n.node@).take(i as int).push(spaced(n.node@)[i as int]) =~= spaced(
            n.node@,
        ).take(i + 1));
        i += 1;
    }
    assert(spaced(n.node@).take(i as int) =~= spaced(n.node@));
    match depth_of(sp.as_slice()) {
        Some(d) => {
            if !starts_with(n.node.as_str(), "Buffer<") {
                return None;
            }
            let len: usize = d.len();
            let depth: String = string_of(d.as_slice(), 0, len);
            assert(d@.subrange(0, len as int) =~= d@);
            assert(n.deep_view().deps[0] == n.deps@[0]@);
            Some(Dock { source: n.deps[0].clone(), buffer: n.node.clone(), depth })
        },
        None => None,
    }
}

/// Whether a buffer can be docked: it has the dependency it retains.
fn is_dockable(n: &TopoNode) -> (r: bool)
    ensures
        r == (dock_of(n.deep_view()) is Some ==> n.deps@.len() > 0),
{
    n.deps.len() > 0 || !looks_docked(n)
}

/// Whether a node is named as a buffer is.
fn looks_docked(n: &TopoNode) -> (r: bool)
    ensures
        r == (dock_of(n.deep_view()) is Some),
{
    let cs: Vec<char> = chars(n.node.as_str());
    let len: usize = cs.len();
    let ghost sp = spaced(n.node@);
    if len == 0 || cs[len - 1] != '>' {
        assert(sp.len() > 0 ==> sp.last().c == cs@[len - 1]);
        return false;
    }
    let ghost body = sp.drop_last();
    let mut k: usize = len - 1;
    while k > 0 && cs[k - 1] != ','
        invariant
            cs@ == n.node@,
            sp == spaced(n.node@),
            len == cs@.len(),
            k <= len - 1,
            body == sp.drop_last(),
            forall|j: int| #![trigger body[j]] k <= j < body.len() ==> body[j].c != ',',
        decreases k,
    {
        assert(body[k - 1].c == cs@[k - 1]);
        k -= 1;
    }
    proof {
        assert(sp.last().c == cs@[len - 1]);
        if k > 0 {
            assert(body[k - 1].c == cs@[k - 1]);
        }
        lemma_after_comma(body, k - 1);
    }
    k > 0 && starts_with(n.node.as_str(), "Buffer<")
}

/// Docks `d`, in place of what its series had docked before.
fn put_dock(ds: &mut Vec<Dock>, d: Dock)
    ensures
        final(ds).deep_view() == with_dock(old(ds).deep_view(), d.deep_view()),
{
    let ghost was = ds.deep_view();
    let ghost dv = d.deep_view();
    match dock_on(ds, d.source.as_str()) {
        Some(k) => {
            ds.set(k, d);
            assert(ds.deep_view() =~= was.update(k as int, dv));
        },
        None => {
            ds.push(d);
            assert(ds.deep_view() =~= was.push(dv));
        },
    }
}

/// The buffers, each on its series.
fn read_docks(t: &[TopoNode]) -> (r: Vec<Dock>)
    requires
        forall|i: int|
            #![trigger t.deep_view()[i]]
            0 <= i < t@.len() && dock_of(t.deep_view()[i]) is Some ==> t.deep_view()[i].deps.len()
                > 0,
    ensures
        r.deep_view() == docks(t.deep_view(), t@.len()),
{
    let ghost tv = t.deep_view();
    let mut out: Vec<Dock> = Vec::new();
    let mut i: usize = 0;
    assert(out.deep_view() =~= docks(tv, 0));
    while i < t.len()
        invariant
            tv == t.deep_view(),
            i <= t@.len(),
            forall|j: int|
                #![trigger tv[j]]
                0 <= j < t@.len() && dock_of(tv[j]) is Some ==> tv[j].deps.len() > 0,
            out.deep_view() == docks(tv, i as nat),
        decreases t@.len() - i,
    {
        assert(tv[i as int] == t@[i as int].deep_view());
        match read_dock(&t[i]) {
            Some(d) => {
                put_dock(&mut out, d);
            },
            None => {},
        }
        i += 1;
    }
    out
}

/// Every control edge, in order.
fn read_gates(t: &[TopoNode]) -> (r: Vec<String>)
    ensures
        r.deep_view() == all_gates(t.deep_view(), t@.len()),
{
    let ghost tv = t.deep_view();
    let mut out: Vec<String> = Vec::new();
    let mut i: usize = 0;
    assert(out.deep_view() =~= all_gates(tv, 0));
    while i < t.len()
        invariant
            tv == t.deep_view(),
            i <= t@.len(),
            out.deep_view() == all_gates(tv, i as nat),
        decreases t@.len() - i,
    {
        let ghost before = out.deep_view();
        let ghost gv = tv[i as int].gates;
        let gs: &Vec<String> = &t[i].gates;
        assert(gv == gs.deep_view());
        let mut k: usize = 0;
        assert(before + gv.take(0) =~= before);
        while k < gs.len()
            invariant
                gv == gs.deep_view(),
                k <= gs@.len(),
                out.deep_view() == before + gv.take(k as int),
            decreases gs@.len() - k,
        {
            out.push(gs[k].clone());
            assert(out.deep_view() =~= (before + gv.take(k as int)).push(gv[k as int]));
            assert(gv.take(k as int).push(gv[k as int]) =~= gv.take(k + 1));
            assert((before + gv.take(k as int)).push(gv[k as int]) =~= before + gv.take(k + 1));
            k += 1;
        }
        assert(gv.take(k as int) =~= gv);
        i += 1;
    }
    out
}

/// Which dock is on the card of `source`, if any.
pub fn dock_on(ds: &Vec<Dock>, source: &str) -> (r: Option<usize>)
    ensures
        match r {
            Some(k) => k < ds@.len() && docked_at(ds.deep_view(), source@, 0) == Some(k as nat),
            None => docked_at(ds.deep_view(), source@, 0) is None,
        },
{
    let ghost dv = ds.deep_view();
    let mut k: usize = 0;
    while k < ds.len()
        invariant
            dv == ds.deep_view(),
            k <= ds@.len(),
            docked_at(dv, source@, 0) == docked_at(dv, source@, k as nat),
        decreases ds@.len() - k,
    {
        assert(dv[k as int].source == ds@[k as int].source@);
        if same(ds[k].source.as_str(), source) {
            return Some(k);
        }
        k += 1;
    }
    None
}

/// The card a dependency is drawn from.
pub fn resolve<'a>(ds: &'a Vec<Dock>, dep: &'a str) -> (r: &'a str)
    ensures
        r@ == resolved(ds.deep_view(), dep@, 0),
{
    let ghost dv = ds.deep_view();
    let mut k: usize = 0;
    while k < ds.len()
        invariant
            dv == ds.deep_view(),
            k <= ds@.len(),
            resolved(dv, dep@, 0) == resolved(dv, dep@, k as nat),
        decreases ds@.len() - k,
    {
        assert(dv[k as int].buffer == ds@[k as int].buffer@);
        assert(dv[k as int].source == ds@[k as int].source@);
        if same(ds[k].buffer.as_str(), dep) {
            return ds[k].source.as_str();
        }
        k += 1;
    }
    dep
}

/// Whether the buffer called `name` is docked somewhere.
fn has_dock(ds: &Vec<Dock>, name: &str) -> (r: bool)
    ensures
        r == is_docked(ds.deep_view(), name@),
{
    let ghost dv = ds.deep_view();
    let mut k: usize = 0;
    while k < ds.len()
        invariant
            dv == ds.deep_view(),
            k <= ds@.len(),
            forall|j: int| #![trigger dv[j]] 0 <= j < k ==> dv[j].buffer != name@,
        decreases ds@.len() - k,
    {
        assert(dv[k as int].buffer == ds@[k as int].buffer@);
        if same(ds[k].buffer.as_str(), name) {
            return true;
        }
        k += 1;
    }
    false
}

/// The newest node before `n` of that name.
fn find_newest(t: &[TopoNode], name: &str, n: usize) -> (r: Option<usize>)
    requires
        n <= t@.len(),
    ensures
        match r {
            Some(k) => newest_named(t.deep_view(), name@, n as nat) == Some(k as nat) && k < n,
            None => newest_named(t.deep_view(), name@, n as nat) is None,
        },
{
    let ghost tv = t.deep_view();
    let mut k: usize = n;
    while k > 0
        invariant
            tv == t.deep_view(),
            k <= n <= t@.len(),
            newest_named(tv, name@, n as nat) == newest_named(tv, name@, k as nat),
        decreases k,
    {
        assert(tv[k - 1].node == t@[k - 1].node@);
        if same(t[k - 1].node.as_str(), name) {
            return Some(k - 1);
        }
        k -= 1;
    }
    None
}

/// A level never exceeds the nodes before it.
proof fn lemma_level_bound(t: Seq<TopoView>, ds: Seq<DockView>, ls: Seq<nat>, deps: Seq<Seq<char>>)
    requires
        forall|k: int| #![trigger ls[k]] 0 <= k < ls.len() ==> ls[k] <= k,
    ensures
        past_deepest(t, ds, ls, deps) <= ls.len(),
    decreases deps.len(),
{
    if deps.len() > 0 {
        lemma_level_bound(t, ds, ls, deps.drop_last());
        lemma_newest_before(t, resolved(ds, deps.last(), 0), ls.len());
    }
}

proof fn lemma_newest_before(t: Seq<TopoView>, name: Seq<char>, n: nat)
    ensures
        newest_named(t, name, n) matches Some(k) ==> k < n && t[k as int].node == name,
    decreases n,
{
    if n > 0 {
        lemma_newest_before(t, name, (n - 1) as nat);
    }
}

/// The level a node on `deps` stands at.
fn level_of(t: &[TopoNode], ds: &Vec<Dock>, ls: &Vec<usize>, deps: &Vec<String>) -> (r: usize)
    requires
        ls@.len() < t@.len(),
        forall|k: int| #![trigger ls@[k]] 0 <= k < ls@.len() ==> ls@[k] <= k,
    ensures
        r == past_deepest(t.deep_view(), ds.deep_view(), crate::tape::nats(ls@), deps.deep_view()),
        r <= ls@.len(),
{
    let ghost tv = t.deep_view();
    let ghost dv = ds.deep_view();
    let ghost lv = crate::tape::nats(ls@);
    let ghost depv = deps.deep_view();
    let mut best: usize = 0;
    let mut k: usize = 0;
    while k < deps.len()
        invariant
            tv == t.deep_view(),
            dv == ds.deep_view(),
            lv == crate::tape::nats(ls@),
            depv == deps.deep_view(),
            ls@.len() < t@.len(),
            forall|j: int| #![trigger ls@[j]] 0 <= j < ls@.len() ==> ls@[j] <= j,
            k <= deps@.len(),
            best == past_deepest(tv, dv, lv, depv.take(k as int)),
            best <= ls@.len(),
        decreases deps@.len() - k,
    {
        proof {
            assert(depv.take(k + 1).drop_last() =~= depv.take(k as int));
            assert(depv.take(k + 1).last() == deps@[k as int]@);
        }
        let card: &str = resolve(ds, deps[k].as_str());
        let l: usize = match find_newest(t, card, ls.len()) {
            Some(at) => {
                assert(lv[at as int] == ls@[at as int]);
                ls[at] + 1
            },
            None => 0,
        };
        if l >= best {
            best = l;
        }
        k += 1;
    }
    assert(depv.take(k as int) =~= depv);
    best
}

/// Every node's level.
fn read_levels(t: &[TopoNode], ds: &Vec<Dock>) -> (r: Vec<usize>)
    ensures
        crate::tape::nats(r@) == levels(t.deep_view(), ds.deep_view(), t@.len()),
        r@.len() == t@.len(),
        forall|k: int| #![trigger r@[k]] 0 <= k < r@.len() ==> r@[k] <= k,
{
    let ghost tv = t.deep_view();
    let ghost dv = ds.deep_view();
    let mut out: Vec<usize> = Vec::new();
    assert(crate::tape::nats(out@) =~= levels(tv, dv, 0));
    while out.len() < t.len()
        invariant
            tv == t.deep_view(),
            dv == ds.deep_view(),
            out@.len() <= t@.len(),
            forall|k: int| #![trigger out@[k]] 0 <= k < out@.len() ==> out@[k] <= k,
            crate::tape::nats(out@) == levels(tv, dv, out@.len()),
        decreases t@.len() - out@.len(),
    {
        let i: usize = out.len();
        let ghost was = out@;
        assert(tv[i as int].deps == t@[i as int].deps.deep_view());
        let l: usize = level_of(t, ds, &out, &t[i].deps);
        out.push(l);
        assert(crate::tape::nats(out@) =~= crate::tape::nats(was).push(l as nat));
    }
    out
}

proof fn lemma_column_empty(ls: Seq<nat>, drawn: Seq<bool>, l: nat, n: nat)
    requires
        l >= breadth(ls, drawn, n),
    ensures
        column(ls, drawn, l, n) == Seq::<nat>::empty(),
    decreases n,
{
    if n > 0 {
        lemma_column_empty(ls, drawn, l, (n - 1) as nat);
    }
}

/// The nodes that get a card, by level.
fn lay_out(ls: &Vec<usize>, drawn: &Vec<bool>) -> (r: Vec<Vec<usize>>)
    requires
        drawn@.len() == ls@.len(),
        forall|k: int| #![trigger ls@[k]] 0 <= k < ls@.len() ==> ls@[k] <= k,
    ensures
        grid(r@) == columns(crate::tape::nats(ls@), drawn@, ls@.len()),
{
    let ghost lv = crate::tape::nats(ls@);
    let mut out: Vec<Vec<usize>> = Vec::new();
    let mut i: usize = 0;
    assert(grid(out@) =~= columns(lv, drawn@, 0));
    while i < ls.len()
        invariant
            lv == crate::tape::nats(ls@),
            drawn@.len() == ls@.len(),
            forall|k: int| #![trigger ls@[k]] 0 <= k < ls@.len() ==> ls@[k] <= k,
            i <= ls@.len(),
            grid(out@) == columns(lv, drawn@, i as nat),
        decreases ls@.len() - i,
    {
        let ghost before = out@;
        assert(lv[i as int] == ls@[i as int]);
        assert(grid(out@).len() == breadth(lv, drawn@, i as nat));
        if drawn[i] {
            let l: usize = ls[i];
            while out.len() <= l
                invariant
                    l <= i < usize::MAX,
                    out@.len() >= before.len(),
                    out@.len() <= l + 1 || out@.len() == before.len(),
                    forall|k: int| #![trigger out@[k]] 0 <= k < before.len() ==> out@[k] == before[k],
                    forall|k: int|
                        #![trigger out@[k]]
                        before.len() <= k < out@.len() ==> out@[k]@ == Seq::<usize>::empty(),
                decreases l + 1 - out@.len(),
            {
                out.push(Vec::new());
            }
            let ghost grown = out@;
            out[l].push(i);
            proof {
                let want = columns(lv, drawn@, (i + 1) as nat);
                assert(grid(out@).len() == want.len());
                assert forall|k: int| 0 <= k < want.len() implies grid(out@)[k] == want[k] by {
                    let c = column(lv, drawn@, k as nat, i as nat);
                    if k >= before.len() {
                        lemma_column_empty(lv, drawn@, k as nat, i as nat);
                        assert(crate::tape::nats(grown[k]@) =~= c);
                    } else {
                        assert(grid(before)[k] == columns(lv, drawn@, i as nat)[k]);
                        assert(crate::tape::nats(grown[k]@) == c);
                    }
                    if k == l {
                        assert(crate::tape::nats(out@[k]@) =~= c.push(i as nat));
                    } else {
                        assert(out@[k] == grown[k]);
                    }
                }
                assert(grid(out@) =~= want);
            }
        } else {
            proof {
                let want = columns(lv, drawn@, (i + 1) as nat);
                assert(want =~= columns(lv, drawn@, i as nat));
            }
        }
        i += 1;
    }
    out
}

/// Whether every name is there once.
fn are_distinct(names: &Vec<String>) -> (r: bool)
    ensures
        r == names.deep_view().no_duplicates(),
{
    let ghost nv = names.deep_view();
    let mut i: usize = 0;
    while i < names.len()
        invariant
            nv == names.deep_view(),
            i <= names@.len(),
            forall|a: int, b: int|
                #![trigger nv[a], nv[b]]
                0 <= a < i && 0 <= b < i && a != b ==> nv[a] != nv[b],
        decreases names@.len() - i,
    {
        assert(nv[i as int] == names@[i as int]@);
        let mut k: usize = 0;
        while k < i
            invariant
                nv == names.deep_view(),
                k <= i < names@.len(),
                nv[i as int] == names@[i as int]@,
                forall|a: int| #![trigger nv[a]] 0 <= a < k ==> nv[a] != nv[i as int],
            decreases i - k,
        {
            assert(nv[k as int] == names@[k as int]@);
            if same(names[k].as_str(), names[i].as_str()) {
                return false;
            }
            k += 1;
        }
        i += 1;
    }
    true
}

/// Whether the graph can be drawn.
pub fn is_drawable(t: &[TopoNode]) -> (r: bool)
    ensures
        r == drawable(t.deep_view()),
{
    let ghost tv = t.deep_view();
    let gates: Vec<String> = read_gates(t);
    if !are_distinct(&gates) {
        return false;
    }
    let mut i: usize = 0;
    while i < t.len()
        invariant
            tv == t.deep_view(),
            i <= t@.len(),
            forall|j: int|
                #![trigger tv[j]]
                0 <= j < i && dock_of(tv[j]) is Some ==> tv[j].deps.len() > 0,
        decreases t@.len() - i,
    {
        assert(tv[i as int] == t@[i as int].deep_view());
        if !is_dockable(&t[i]) {
            return false;
        }
        i += 1;
    }
    let ds: Vec<Dock> = read_docks(t);
    let ghost dv = ds.deep_view();
    let mut j: usize = 0;
    while j < t.len()
        invariant
            tv == t.deep_view(),
            dv == ds.deep_view(),
            dv == docks(tv, tv.len()),
            gates.deep_view() == all_gates(tv, tv.len()),
            j <= t@.len(),
            forall|a: int, k: int|
                #![trigger tv[a].deps[k]]
                0 <= a < j && 0 <= k < tv[a].deps.len() ==> !all_gates(tv, tv.len()).contains(
                    tv[a].deps[k],
                ) && newest_named(tv, resolved(dv, tv[a].deps[k], 0), a as nat) is Some,
        decreases t@.len() - j,
    {
        let deps: &Vec<String> = &t[j].deps;
        assert(tv[j as int].deps == deps.deep_view());
        let mut k: usize = 0;
        while k < deps.len()
            invariant
                tv == t.deep_view(),
                dv == ds.deep_view(),
                dv == docks(tv, tv.len()),
                gates.deep_view() == all_gates(tv, tv.len()),
                j < t@.len(),
                tv[j as int].deps == deps.deep_view(),
                k <= deps@.len(),
                forall|a: int|
                    #![trigger tv[j as int].deps[a]]
                    0 <= a < k ==> !all_gates(tv, tv.len()).contains(tv[j as int].deps[a])
                        && newest_named(tv, resolved(dv, tv[j as int].deps[a], 0), j as nat) is Some,
            decreases deps@.len() - k,
        {
            assert(tv[j as int].deps[k as int] == deps@[k as int]@);
            if contains(gates.as_slice(), deps[k].as_str()) {
                return false;
            }
            let card: &str = resolve(&ds, deps[k].as_str());
            match find_newest(t, card, j) {
                Some(_) => {},
                None => {
                    assert(!in_order(tv, docks(tv, tv.len()), tv.len())) by {
                        assert(newest_named(
                            tv,
                            resolved(dv, tv[j as int].deps[k as int], 0),
                            j as nat,
                        ) is None);
                    }
                    return false;
                },
            }
            k += 1;
        }
        j += 1;
    }
    true
}

/// The first node called `name`.
pub fn first_of(t: &[TopoNode], name: &str) -> (r: Option<usize>)
    ensures
        match r {
            Some(i) => i < t@.len() && named_first(t.deep_view(), name@, 0) == Some(i as nat),
            None => named_first(t.deep_view(), name@, 0) is None,
        },
{
    let ghost tv = t.deep_view();
    let mut i: usize = 0;
    while i < t.len()
        invariant
            tv == t.deep_view(),
            i <= t@.len(),
            named_first(tv, name@, 0) == named_first(tv, name@, i as nat),
        decreases t@.len() - i,
    {
        assert(tv[i as int].node == t@[i as int].node@);
        if same(t[i].node.as_str(), name) {
            return Some(i);
        }
        i += 1;
    }
    None
}

/// Whether every gate docked on a card is a node of the graph with a single element.
pub fn has_scalar_gates(t: &[TopoNode]) -> (r: bool)
    requires
        drawable(t.deep_view()),
    ensures
        r == scalar_gates(t.deep_view()),
{
    let ghost tv = t.deep_view();
    let gates: Vec<String> = read_gates(t);
    let ds: Vec<Dock> = read_docks(t);
    let ghost own = carded(tv, docks(tv, tv.len()));
    let mut i: usize = 0;
    while i < t.len()
        invariant
            tv == t.deep_view(),
            gates.deep_view() == all_gates(tv, tv.len()),
            ds.deep_view() == docks(tv, tv.len()),
            own == carded(tv, docks(tv, tv.len())),
            i <= t@.len(),
            forall|j: int, k: int|
                #![trigger tv[j].gates[k]]
                0 <= j < i && own[j] && 0 <= k < tv[j].gates.len() ==> is_scalar(
                    tv,
                    tv[j].gates[k],
                ),
        decreases t@.len() - i,
    {
        assert(tv[i as int] == t@[i as int].deep_view());
        let gs: &Vec<String> = &t[i].gates;
        let carded_here: bool = !contains(gates.as_slice(), t[i].node.as_str()) && !has_dock(
            &ds,
            t[i].node.as_str(),
        );
        assert(carded_here == own[i as int]);
        let mut k: usize = 0;
        while carded_here && k < gs.len()
            invariant
                tv == t.deep_view(),
                own == carded(tv, docks(tv, tv.len())),
                i < t@.len(),
                carded_here == own[i as int],
                tv[i as int].gates == gs.deep_view(),
                k <= gs@.len(),
                forall|m: int|
                    #![trigger tv[i as int].gates[m]]
                    0 <= m < k ==> is_scalar(tv, tv[i as int].gates[m]),
            decreases gs@.len() - k,
        {
            assert(tv[i as int].gates[k as int] == gs@[k as int]@);
            let scalar: bool = match first_of(t, gs[k].as_str()) {
                Some(h) => {
                    assert(tv[h as int].dims =~= t@[h as int].dims@);
                    is_volume(&t[h].dims, 1)
                },
                None => false,
            };
            if !scalar {
                assert(!is_scalar(t.deep_view(), t.deep_view()[i as int].gates[k as int]));
                return false;
            }
            k += 1;
        }
        i += 1;
    }
    true
}

/// The panel of a graph.
pub fn draw(t: &[TopoNode]) -> (r: Board)
    requires
        drawable(t.deep_view()),
    ensures
        r@ == board(t.deep_view()),
{
    let ghost tv = t.deep_view();
    let gates: Vec<String> = read_gates(t);
    let ds: Vec<Dock> = read_docks(t);
    let ls: Vec<usize> = read_levels(t, &ds);
    let ghost want = carded(tv, ds.deep_view());
    let mut drawn: Vec<bool> = Vec::new();
    let mut i: usize = 0;
    while i < t.len()
        invariant
            tv == t.deep_view(),
            gates.deep_view() == all_gates(tv, tv.len()),
            want == carded(tv, ds.deep_view()),
            i <= t@.len(),
            drawn@ == want.take(i as int),
        decreases t@.len() - i,
    {
        assert(tv[i as int].node == t@[i as int].node@);
        let own: bool = !contains(gates.as_slice(), t[i].node.as_str()) && !has_dock(
            &ds,
            t[i].node.as_str(),
        );
        drawn.push(own);
        assert(want.take(i as int).push(want[i as int]) =~= want.take(i + 1));
        i += 1;
    }
    assert(want.take(i as int) =~= want);
    let columns: Vec<Vec<usize>> = lay_out(&ls, &drawn);
    let r = Board { gates, docks: ds, columns };
    assert(r@ =~= board(tv));
    r
}

/// The plain panel: every node a card, its dependencies taken by name.
pub open spec fn plain_columns(t: Seq<TopoView>) -> Seq<Seq<nat>> {
    columns(levels(t, Seq::empty(), t.len()), Seq::new(t.len(), |i: int| true), t.len())
}

/// Whether the nodes come in step order, nothing docked.
pub fn is_plain_drawable(t: &[TopoNode]) -> (r: bool)
    ensures
        r == in_order(t.deep_view(), Seq::empty(), t@.len()),
{
    let ghost tv = t.deep_view();
    let mut j: usize = 0;
    while j < t.len()
        invariant
            tv == t.deep_view(),
            j <= t@.len(),
            in_order(tv, Seq::empty(), j as nat),
        decreases t@.len() - j,
    {
        let deps: &Vec<String> = &t[j].deps;
        assert(tv[j as int].deps == deps.deep_view());
        let mut k: usize = 0;
        while k < deps.len()
            invariant
                tv == t.deep_view(),
                j < t@.len(),
                tv[j as int].deps == deps.deep_view(),
                k <= deps@.len(),
                forall|a: int|
                    #![trigger tv[j as int].deps[a]]
                    0 <= a < k ==> newest_named(
                        tv,
                        resolved(Seq::empty(), tv[j as int].deps[a], 0),
                        j as nat,
                    ) is Some,
            decreases deps@.len() - k,
        {
            assert(tv[j as int].deps[k as int] == deps@[k as int]@);
            match find_newest(t, deps[k].as_str(), j) {
                Some(_) => {},
                None => {
                    assert(newest_named(
                        tv,
                        resolved(Seq::empty(), tv[j as int].deps[k as int], 0),
                        j as nat,
                    ) is None);
                    return false;
                },
            }
            k += 1;
        }
        j += 1;
    }
    true
}

/// The columns of the plain panel.
pub fn draw_plain(t: &[TopoNode]) -> (r: Vec<Vec<usize>>)
    requires
        in_order(t.deep_view(), Seq::empty(), t@.len()),
    ensures
        grid(r@) == plain_columns(t.deep_view()),
{
    let none: Vec<Dock> = Vec::new();
    assert(none.deep_view() =~= Seq::<DockView>::empty());
    let ls: Vec<usize> = read_levels(t, &none);
    let mut drawn: Vec<bool> = Vec::new();
    while drawn.len() < t.len()
        invariant
            drawn@.len() <= t@.len(),
            forall|k: int| #![trigger drawn@[k]] 0 <= k < drawn@.len() ==> drawn@[k],
        decreases t@.len() - drawn@.len(),
    {
        drawn.push(true);
    }
    assert(drawn@ =~= Seq::new(t@.len(), |i: int| true));
    lay_out(&ls, &drawn)
}

proof fn lemma_levels(t: Seq<TopoView>, ds: Seq<DockView>, n: nat, m: nat)
    requires
        m <= n,
    ensures
        levels(t, ds, n).len() == n,
        levels(t, ds, n).take(m as int) == levels(t, ds, m),
    decreases n,
{
    if n > 0 {
        if m < n {
            lemma_levels(t, ds, (n - 1) as nat, m);
            assert(levels(t, ds, n).take(m as int) =~= levels(t, ds, (n - 1) as nat).take(m as int));
        } else {
            lemma_levels(t, ds, (n - 1) as nat, (n - 1) as nat);
            assert(levels(t, ds, n).take(m as int) =~= levels(t, ds, n));
        }
    } else {
        assert(levels(t, ds, n).take(0) =~= levels(t, ds, 0));
    }
}

proof fn lemma_past_each(
    t: Seq<TopoView>,
    ds: Seq<DockView>,
    ls: Seq<nat>,
    deps: Seq<Seq<char>>,
    k: int,
)
    requires
        0 <= k < deps.len(),
        newest_named(t, resolved(ds, deps[k], 0), ls.len()) is Some,
    ensures
        past_deepest(t, ds, ls, deps) > ls[newest_named(
            t,
            resolved(ds, deps[k], 0),
            ls.len(),
        )->Some_0 as int],
    decreases deps.len(),
{
    if k < deps.len() - 1 {
        assert(deps.drop_last()[k] == deps[k]);
        lemma_past_each(t, ds, ls, deps.drop_last(), k);
    }
}

/// A card stands past every card it depends on.
pub proof fn a_card_stands_past_its_deps(t: Seq<TopoView>, ds: Seq<DockView>, i: nat, k: int)
    requires
        i < t.len(),
        0 <= k < t[i as int].deps.len(),
        in_order(t, ds, t.len()),
    ensures
        ({
            let d = newest_named(t, resolved(ds, t[i as int].deps[k], 0), i)->Some_0;
            &&& d < i
            &&& t[d as int].node == resolved(ds, t[i as int].deps[k], 0)
            &&& levels(t, ds, t.len())[d as int] < levels(t, ds, t.len())[i as int]
        }),
{
    let card = resolved(ds, t[i as int].deps[k], 0);
    assert(newest_named(t, card, i) is Some);
    lemma_newest_before(t, card, i);
    let d = newest_named(t, card, i)->Some_0;
    let n = t.len();
    lemma_levels(t, ds, n, (i + 1) as nat);
    lemma_levels(t, ds, n, i);
    lemma_levels(t, ds, i, i);
    let ls = levels(t, ds, i);
    lemma_past_each(t, ds, ls, t[i as int].deps, k);
    let all = levels(t, ds, n);
    assert(all.take((i + 1) as int)[i as int] == all[i as int]);
    assert(all.take(i as int)[d as int] == all[d as int]);
}

proof fn lemma_column(ls: Seq<nat>, drawn: Seq<bool>, l: nat, n: nat, i: nat)
    requires
        n <= ls.len(),
        n <= drawn.len(),
    ensures
        column(ls, drawn, l, n).contains(i) <==> i < n && drawn[i as int] && ls[i as int] == l,
        i < n && drawn[i as int] ==> ls[i as int] < breadth(ls, drawn, n),
    decreases n,
{
    if n > 0 {
        let m = (n - 1) as nat;
        lemma_column(ls, drawn, l, m, i);
        let r = column(ls, drawn, l, m);
        if drawn[n - 1] && ls[n - 1] == l {
            let c = r.push(m);
            if r.contains(i) {
                let k = choose|k: int| 0 <= k < r.len() && r[k] == i;
                assert(c[k] == i);
            }
            assert(c[c.len() - 1] == m);
            if c.contains(i) && i != m {
                let k = choose|k: int| 0 <= k < c.len() && c[k] == i;
                assert(r[k] == i);
            }
        }
    }
}

/// Every card stands in the column of its level and in no other; what is docked stands in none.
pub proof fn every_card_has_one_column(t: Seq<TopoView>, i: nat, l: nat)
    requires
        i < t.len(),
        l < board(t).columns.len(),
    ensures
        board(t).columns[l as int].contains(i) <==> carded(t, docks(t, t.len()))[i as int]
            && levels(t, docks(t, t.len()), t.len())[i as int] == l,
        carded(t, docks(t, t.len()))[i as int] ==> levels(t, docks(t, t.len()), t.len())[i as int]
            < board(t).columns.len(),
{
    let ds = docks(t, t.len());
    lemma_levels(t, ds, t.len(), 0);
    lemma_column(levels(t, ds, t.len()), carded(t, ds), l, t.len(), i);
}

} // verus!
