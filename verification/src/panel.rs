//! What the panel shows of a frame: the edges of the tick's Jacobians, who is under the pointer, and
//! how each card reads.
use vstd::arithmetic::div_mod::{lemma_fundamental_div_mod_converse, lemma_mod_multiples_basic};
use vstd::prelude::*;

use crate::api_types::{Activation, ActivationView, TopoNode, TopoView};
use crate::board::{first_of, newest_named, resolve, resolved, Dock, DockView};
use crate::floats::{is_zero, zero, Bits};
use crate::replay::volume;
use crate::text::same;

verus! {

/// One entry of a Jacobian: an element of a dependency, an element of the node, and the weight.
#[derive(Clone, Copy, Debug, PartialEq, Eq)]
pub struct Link {
    /// Which of the node's dependencies.
    pub dep: usize,
    /// Which of that dependency's elements.
    pub from: usize,
    /// Which of the node's elements.
    pub to: usize,
    pub w: Bits,
}

/// The sum of the dependencies' lengths.
pub open spec fn total_len(lens: Seq<usize>) -> nat
    decreases lens.len(),
{
    if lens.len() == 0 {
        0
    } else {
        lens[0] as nat + total_len(lens.drop_first())
    }
}

/// Which dependency a slot of their concatenation belongs to, and which of its elements it is.
pub open spec fn slot_of(lens: Seq<usize>, j: nat) -> (nat, nat)
    decreases lens.len(),
{
    if lens.len() == 0 || j < lens[0] {
        (0, j)
    } else {
        let (d, k) = slot_of(lens.drop_first(), (j - lens[0]) as nat);
        (d + 1, k)
    }
}

/// The edges of the first `n` entries of a Jacobian: the entries that are there and not zero.
pub open spec fn links(jac: Seq<Option<Bits>>, lens: Seq<usize>, n: nat) -> Seq<Link>
    decreases n,
{
    if n == 0 {
        Seq::empty()
    } else {
        let r = links(jac, lens, (n - 1) as nat);
        let f = (n - 1) as nat;
        let t = total_len(lens);
        match jac[n - 1] {
            Some(w) => if zero(w) {
                r
            } else {
                let (d, k) = slot_of(lens, f % t);
                r.push(Link { dep: d as usize, from: k as usize, to: (f / t) as usize, w })
            },
            None => r,
        }
    }
}

/// A slot is its dependency's offset and its own place: resolving inverts the prefix sums.
pub proof fn a_slot_is_its_offset(lens: Seq<usize>, j: nat)
    requires
        j < total_len(lens),
    ensures
        ({
            let (d, k) = slot_of(lens, j);
            &&& d < lens.len()
            &&& k < lens[d as int]
            &&& total_len(lens.take(d as int)) + k == j
        }),
    decreases lens.len(),
{
    if lens.len() > 0 {
        if j < lens[0] {
            assert(lens.take(0) =~= Seq::empty());
        } else {
            let rest = lens.drop_first();
            a_slot_is_its_offset(rest, (j - lens[0]) as nat);
            let (d, k) = slot_of(rest, (j - lens[0]) as nat);
            let head = lens.take((d + 1) as int);
            assert(head.drop_first() =~= rest.take(d as int));
            assert(head[0] == lens[0]);
            assert(lens[(d + 1) as int] == rest[d as int]);
        }
    }
}

/// Resolves a slot of the concatenation.
fn find_slot(lens: &Vec<usize>, j: usize) -> (r: (usize, usize))
    requires
        j < total_len(lens@),
    ensures
        slot_of(lens@, j as nat) == (r.0 as nat, r.1 as nat),
{
    let n: usize = lens.len();
    let mut d: usize = 0;
    let mut k: usize = j;
    assert(lens@.skip(0) =~= lens@);
    proof {
        a_slot_is_its_offset(lens@, j as nat);
    }
    while k >= lens[d]
        invariant
            d < lens@.len() == n,
            k < total_len(lens@.skip(d as int)),
            slot_of(lens@, j as nat) == ({
                let (x, y) = slot_of(lens@.skip(d as int), k as nat);
                (x + d as nat, y)
            }),
        decreases lens@.len() - d,
    {
        proof {
            let s = lens@.skip(d as int);
            assert(s[0] == lens@[d as int]);
            assert(s.drop_first() =~= lens@.skip(d + 1));
            assert(total_len(s) == s[0] + total_len(lens@.skip(d + 1)));
            if d + 1 == lens@.len() {
                assert(total_len(lens@.skip(d + 1)) == 0);
            }
        }
        k = k - lens[d];
        d = d + 1;
    }
    proof {
        assert(lens@.skip(d as int)[0] == lens@[d as int]);
    }
    (d, k)
}

/// The edges of a Jacobian of one row per element of the node and one column per element of its
/// dependencies.
pub fn read_links(jac: &Vec<Option<Bits>>, lens: &Vec<usize>) -> (r: Vec<Link>)
    requires
        total_len(lens@) <= usize::MAX,
        total_len(lens@) > 0 ==> jac@.len() % total_len(lens@) == 0,
        total_len(lens@) == 0 ==> jac@.len() == 0,
    ensures
        r@ == links(jac@, lens@, jac@.len()),
{
    let ghost t = total_len(lens@);
    let total: usize = sum_of(lens);
    let mut out: Vec<Link> = Vec::new();
    let mut f: usize = 0;
    let mut i: usize = 0;
    let mut j: usize = 0;
    while f < jac.len()
        invariant
            t == total_len(lens@),
            total == t,
            f <= jac@.len(),
            jac@.len() > 0 ==> t > 0,
            t > 0 ==> j < t,
            f == i * t + j,
            i <= f,
            out@ == links(jac@, lens@, f as nat),
        decreases jac@.len() - f,
    {
        proof {
            lemma_fundamental_div_mod_converse(f as int, t as int, i as int, j as int);
        }
        match jac[f] {
            Some(w) => {
                if !is_zero(w) {
                    let (dep, from) = find_slot(lens, j);
                    out.push(Link { dep, from, to: i, w });
                }
            },
            None => {},
        }
        f += 1;
        j += 1;
        proof {
            if j == total {
                assert(i * t + t == (i + 1) * t) by (nonlinear_arith);
            }
        }
        if j == total {
            j = 0;
            i += 1;
            assert(i <= f) by (nonlinear_arith)
                requires
                    f == i * t,
                    t >= 1,
            ;
        }
    }
    out
}

/// The sum of some lengths.
fn sum_of(lens: &Vec<usize>) -> (r: usize)
    requires
        total_len(lens@) <= usize::MAX,
    ensures
        r == total_len(lens@),
{
    let mut total: usize = 0;
    let mut i: usize = 0;
    assert(lens@.skip(0) =~= lens@);
    while i < lens.len()
        invariant
            i <= lens@.len(),
            total + total_len(lens@.skip(i as int)) == total_len(lens@),
            total_len(lens@) <= usize::MAX,
        decreases lens@.len() - i,
    {
        proof {
            assert(lens@.skip(i as int)[0] == lens@[i as int]);
            assert(lens@.skip(i as int).drop_first() =~= lens@.skip(i + 1));
        }
        total = total + lens[i];
        i += 1;
    }
    assert(lens@.skip(i as int).len() == 0);
    total
}

/// Why a Jacobian cannot be drawn.
#[derive(Clone, Copy, Debug, PartialEq, Eq)]
pub enum LinkError {
    /// A dependency is not in the topology.
    UnknownDep,
    /// The Jacobian does not have one row per element and one column per element it depends on.
    Shape,
}

/// Every dependency is in the topology.
pub open spec fn known_deps(t: Seq<TopoView>, deps: Seq<Seq<char>>) -> bool {
    forall|k: int|
        #![trigger deps[k]]
        0 <= k < deps.len() ==> newest_named(t, deps[k], t.len()) is Some
}

/// How many elements a dependency has.
pub open spec fn dep_len(t: Seq<TopoView>, dep: Seq<char>) -> nat {
    volume(t[newest_named(t, dep, t.len())->Some_0 as int].dims)
}

/// Every dependency's length fits a machine word.
pub open spec fn sized_deps(t: Seq<TopoView>, deps: Seq<Seq<char>>) -> bool {
    forall|k: int|
        #![trigger deps[k]]
        0 <= k < deps.len() ==> dep_len(t, deps[k]) <= usize::MAX
}

/// The dependencies' lengths.
pub open spec fn dep_lens(t: Seq<TopoView>, deps: Seq<Seq<char>>) -> Seq<usize> {
    Seq::new(deps.len(), |k: int| dep_len(t, deps[k]) as usize)
}

/// The Jacobian has one row per element of the node and one column per element it depends on.
pub open spec fn shaped(a: ActivationView, t: Seq<TopoView>) -> bool {
    a.jac matches Some(j) ==> sized_deps(t, a.deps) && total_len(dep_lens(t, a.deps)) <= usize::MAX
        && j.len() == volume(a.dims) * total_len(dep_lens(t, a.deps))
}

/// The edges an activation draws.
pub open spec fn activation_links(a: ActivationView, t: Seq<TopoView>) -> Seq<Link> {
    match a.jac {
        Some(j) => links(j, dep_lens(t, a.deps), j.len()),
        None => Seq::empty(),
    }
}

/// The number of elements of a shape, `None` where it does not fit a machine word.
fn volume_of(dims: &Vec<usize>) -> (r: Option<usize>)
    ensures
        match r {
            Some(v) => v == volume(dims@),
            None => volume(dims@) > usize::MAX,
        },
{
    let mut k: usize = 0;
    while k < dims.len() && dims[k] != 0
        invariant
            k <= dims@.len(),
            forall|j: int| #![trigger dims@[j]] 0 <= j < k ==> dims@[j] != 0,
        decreases dims@.len() - k,
    {
        k += 1;
    }
    if k < dims.len() {
        proof {
            assert(dims@.take(k + 1).drop_last() =~= dims@.take(k as int));
            assert(volume(dims@.take(k as int)) * (dims@[k as int] as nat) == 0)
                by (nonlinear_arith)
                requires
                    dims@[k as int] == 0,
            ;
            crate::replay::lemma_volume_zero(dims@, k + 1);
        }
        return Some(0);
    }
    let mut v: usize = 1;
    let mut i: usize = 0;
    while i < dims.len()
        invariant
            i <= dims@.len(),
            forall|j: int| #![trigger dims@[j]] 0 <= j < dims@.len() ==> dims@[j] != 0,
            v == volume(dims@.take(i as int)),
        decreases dims@.len() - i,
    {
        proof {
            assert(dims@.take(i + 1).drop_last() =~= dims@.take(i as int));
        }
        match v.checked_mul(dims[i]) {
            Some(w) => {
                v = w;
            },
            None => {
                proof {
                    lemma_volume_rises(dims@, i + 1);
                }
                return None;
            },
        }
        i += 1;
    }
    assert(dims@.take(i as int) =~= dims@);
    Some(v)
}

/// Without an empty axis a shape holds at least what its first axes do.
proof fn lemma_volume_rises(dims: Seq<usize>, k: int)
    requires
        0 <= k <= dims.len(),
        forall|j: int| #![trigger dims[j]] 0 <= j < dims.len() ==> dims[j] != 0,
    ensures
        volume(dims) >= volume(dims.take(k)),
    decreases dims.len() - k,
{
    if k == dims.len() {
        assert(dims.take(k) =~= dims);
    } else {
        lemma_volume_rises(dims, k + 1);
        assert(dims.take(k + 1).drop_last() =~= dims.take(k));
        let v = volume(dims.take(k));
        let d = dims[k] as nat;
        assert(d >= 1);
        assert(v * d >= v) by (nonlinear_arith)
            requires
                d >= 1,
        ;
    }
}

/// The newest node of that name.
fn find_node(t: &[TopoNode], name: &str) -> (r: Option<usize>)
    ensures
        match r {
            Some(k) => newest_named(t.deep_view(), name@, t@.len()) == Some(k as nat) && k < t@.len(),
            None => newest_named(t.deep_view(), name@, t@.len()) is None,
        },
{
    let ghost tv = t.deep_view();
    let mut k: usize = t.len();
    while k > 0
        invariant
            tv == t.deep_view(),
            k <= t@.len(),
            newest_named(tv, name@, t@.len()) == newest_named(tv, name@, k as nat),
        decreases k,
    {
        assert(tv[k - 1].node == t@[k - 1].node@);
        if same(t[k - 1].node.as_str(), name) {
            return Some(k - 1);
        }
        k -= 1;
    }
    None
}

/// Whether lengths add up within a machine word.
fn is_summable(lens: &Vec<usize>) -> (r: bool)
    ensures
        r == (total_len(lens@) <= usize::MAX),
{
    let mut total: usize = 0;
    let mut i: usize = 0;
    assert(lens@.skip(0) =~= lens@);
    while i < lens.len()
        invariant
            i <= lens@.len(),
            total + total_len(lens@.skip(i as int)) == total_len(lens@),
        decreases lens@.len() - i,
    {
        proof {
            assert(lens@.skip(i as int)[0] == lens@[i as int]);
            assert(lens@.skip(i as int).drop_first() =~= lens@.skip(i + 1));
        }
        match total.checked_add(lens[i]) {
            Some(s) => {
                total = s;
            },
            None => {
                return false;
            },
        }
        i += 1;
    }
    assert(lens@.skip(i as int).len() == 0);
    true
}

/// The edges an activation draws on the graph `t`.
pub fn edges(a: &Activation, t: &[TopoNode]) -> (r: Result<Vec<Link>, LinkError>)
    ensures
        match r {
            Ok(ls) => (a.jac is Some ==> known_deps(t.deep_view(), a.deep_view().deps)) && shaped(
                a.deep_view(),
                t.deep_view(),
            ) && ls@ == activation_links(a.deep_view(), t.deep_view()),
            Err(LinkError::UnknownDep) => a.jac is Some && !known_deps(
                t.deep_view(),
                a.deep_view().deps,
            ),
            Err(LinkError::Shape) => a.jac is Some && known_deps(
                t.deep_view(),
                a.deep_view().deps,
            ) && !shaped(a.deep_view(), t.deep_view()),
        },
{
    let ghost tv = t.deep_view();
    let ghost av = a.deep_view();
    let jac: &Vec<Option<Bits>> = match &a.jac {
        Some(j) => j,
        None => {
            return Ok(Vec::new());
        },
    };
    let mut k: usize = 0;
    while k < a.deps.len()
        invariant
            tv == t.deep_view(),
            av == a.deep_view(),
            k <= a.deps@.len(),
            forall|j: int|
                #![trigger av.deps[j]]
                0 <= j < k ==> newest_named(tv, av.deps[j], tv.len()) is Some,
            a.jac is Some,
        decreases a.deps@.len() - k,
    {
        assert(av.deps[k as int] == a.deps@[k as int]@);
        match find_node(t, a.deps[k].as_str()) {
            Some(_) => {},
            None => {
                assert(newest_named(tv, av.deps[k as int], tv.len()) is None);
                return Err(LinkError::UnknownDep);
            },
        }
        k += 1;
    }
    let mut lens: Vec<usize> = Vec::new();
    let mut m: usize = 0;
    while m < a.deps.len()
        invariant
            tv == t.deep_view(),
            av == a.deep_view(),
            known_deps(tv, av.deps),
            m <= a.deps@.len(),
            lens@ == dep_lens(tv, av.deps).take(m as int),
            forall|j: int|
                #![trigger av.deps[j]]
                0 <= j < m ==> dep_len(tv, av.deps[j]) <= usize::MAX,
            a.jac is Some,
        decreases a.deps@.len() - m,
    {
        assert(av.deps[m as int] == a.deps@[m as int]@);
        match find_node(t, a.deps[m].as_str()) {
            Some(at) => {
                assert(tv[at as int].dims =~= t@[at as int].dims@);
                match volume_of(&t[at].dims) {
                    Some(v) => {
                        lens.push(v);
                        assert(dep_lens(tv, av.deps).take(m as int).push(v) =~= dep_lens(
                            tv,
                            av.deps,
                        ).take(m + 1));
                    },
                    None => {
                        assert(dep_len(tv, av.deps[m as int]) > usize::MAX);
                        return Err(LinkError::Shape);
                    },
                }
            },
            None => {
                return Err(LinkError::UnknownDep);
            },
        }
        m += 1;
    }
    assert(lens@ =~= dep_lens(tv, av.deps));
    if !is_summable(&lens) {
        return Err(LinkError::Shape);
    }
    let total: usize = sum_of(&lens);
    let have: usize = jac.len();
    assert(av.dims =~= a.dims@);
    let shape: bool = match volume_of(&a.dims) {
        Some(v) => match v.checked_mul(total) {
            Some(n) => n == have,
            None => false,
        },
        None => {
            proof {
                let big = volume(a.dims@);
                let small = total as nat;
                if small > 0 {
                    assert(big * small > usize::MAX) by (nonlinear_arith)
                        requires
                            big > usize::MAX,
                            small > 0,
                    ;
                } else {
                    assert(big * small == 0) by (nonlinear_arith)
                        requires
                            small == 0,
                    ;
                }
            }
            total == 0 && have == 0
        },
    };
    if !shape {
        assert(jac@.len() != volume(a.dims@) * total_len(lens@));
        return Err(LinkError::Shape);
    }
    proof {
        let v = volume(a.dims@);
        if total > 0 {
            lemma_mod_multiples_basic(v as int, total as int);
            assert(jac@.len() == v * total);
            assert(jac@.len() % (total as nat) == 0);
        } else {
            assert(v * (total as nat) == 0) by (nonlinear_arith)
                requires
                    total == 0,
            ;
        }
    }
    Ok(read_links(jac, &lens))
}

/// What is under the pointer.
pub enum Hover {
    Nothing,
    Card(String),
    Cell(String, usize),
}

/// What is under the pointer.
#[verifier::ext_equal]
pub enum HoverView {
    Nothing,
    Card(Seq<char>),
    Cell(Seq<char>, nat),
}

impl View for Hover {
    type V = HoverView;

    open spec fn view(&self) -> HoverView {
        match *self {
            Hover::Nothing => HoverView::Nothing,
            Hover::Card(n) => HoverView::Card(n@),
            Hover::Cell(n, i) => HoverView::Cell(n@, i as nat),
        }
    }
}

/// One end of an edge: a node and which of its elements.
#[verifier::ext_equal]
pub struct EndView {
    pub node: Seq<char>,
    pub slot: nat,
}

/// The node under the pointer.
pub open spec fn hovered(h: HoverView) -> Option<Seq<char>> {
    match h {
        HoverView::Nothing => None,
        HoverView::Card(n) => Some(n),
        HoverView::Cell(n, _) => Some(n),
    }
}

/// The edge is drawn: all of them with nothing under the pointer, else those that touch what is.
pub open spec fn touches(h: HoverView, from: EndView, to: EndView) -> bool {
    match h {
        HoverView::Nothing => true,
        HoverView::Card(n) => to.node == n || from.node == n,
        HoverView::Cell(n, i) => (to.node == n && to.slot == i) || (from.node == n && from.slot == i),
    }
}

impl Hover {
    /// The node under the pointer.
    pub fn node(&self) -> (r: Option<&str>)
        ensures
            match r {
                Some(n) => hovered(self@) == Some(n@),
                None => hovered(self@) is None,
            },
    {
        match self {
            Hover::Nothing => None,
            Hover::Card(n) => Some(n.as_str()),
            Hover::Cell(n, _) => Some(n.as_str()),
        }
    }

    /// Whether an edge is drawn.
    pub fn shows(&self, from: &str, from_slot: usize, to: &str, to_slot: usize) -> (r: bool)
        ensures
            r == touches(
                self@,
                (EndView { node: from@, slot: from_slot as nat }),
                (EndView { node: to@, slot: to_slot as nat }),
            ),
    {
        match self {
            Hover::Nothing => true,
            Hover::Card(n) => same(to, n.as_str()) || same(from, n.as_str()),
            Hover::Cell(n, i) => (same(to, n.as_str()) && to_slot == *i) || (same(from, n.as_str())
                && from_slot == *i),
        }
    }

    /// Whether a node's full rendering is shown: it has one, and the pointer is on the node.
    pub fn tips(&self, node: &str, detail: &str) -> (r: bool)
        ensures
            r == (detail@.len() > 0 && hovered(self@) == Some(node@)),
    {
        let some: bool = !same(detail, "");
        proof {
            reveal_strlit("");
            if !some {
                assert(detail@ == ""@);
            } else if detail@.len() == 0 {
                assert(detail@ =~= ""@);
            }
        }
        match self.node() {
            Some(n) => some && same(n, node),
            None => false,
        }
    }
}

/// The first node of that name.
pub open spec fn first_named(t: Seq<TopoView>, name: Seq<char>) -> Option<nat> {
    crate::replay::named_first(t, name, 0)
}

/// The cards a hovered node depends on, a buffer's being that of its series.
pub open spec fn hovered_cards(h: HoverView, t: Seq<TopoView>, ds: Seq<DockView>) -> Seq<Seq<char>> {
    match hovered(h) {
        Some(n) => match first_named(t, n) {
            Some(i) => Seq::new(
                t[i as int].deps.len(),
                |k: int| resolved(ds, t[i as int].deps[k], 0),
            ),
            None => Seq::empty(),
        },
        None => Seq::empty(),
    }
}

/// The cards a hovered node depends on.
pub fn hovered_deps(h: &Hover, t: &[TopoNode], ds: &Vec<Dock>) -> (r: Vec<String>)
    ensures
        r.deep_view() == hovered_cards(h@, t.deep_view(), ds.deep_view()),
{
    let ghost tv = t.deep_view();
    let ghost want = hovered_cards(h@, tv, ds.deep_view());
    let mut out: Vec<String> = Vec::new();
    let node: &str = match h.node() {
        Some(n) => n,
        None => {
            assert(out.deep_view() =~= want);
            return out;
        },
    };
    if let Some(i) = first_of(t, node) {
        assert(tv[i as int] == t@[i as int].deep_view());
        let deps: &Vec<String> = &t[i].deps;
        assert(tv[i as int].deps == deps.deep_view());
        let mut k: usize = 0;
        while k < deps.len()
            invariant
                tv == t.deep_view(),
                i < t@.len(),
                tv[i as int].deps == deps.deep_view(),
                hovered(h@) == Some(node@),
                first_named(tv, node@) == Some(i as nat),
                want == hovered_cards(h@, tv, ds.deep_view()),
                k <= deps@.len(),
                out@.len() == k,
                forall|j: int| #![trigger out@[j]] 0 <= j < k ==> out@[j]@ == want[j],
            decreases deps@.len() - k,
        {
            assert(tv[i as int].deps[k as int] == deps@[k as int]@);
            out.push(resolve(ds, deps[k].as_str()).to_owned());
            k += 1;
        }
    }
    assert(out.deep_view() =~= want);
    out
}

/// The node the pointer is on and whether it is charted unless asked otherwise, a buffer standing for the
/// series it retains.
pub open spec fn pointed_at(h: HoverView, t: Seq<TopoView>, ds: Seq<DockView>) -> Option<
    (Seq<char>, bool),
> {
    match hovered(h) {
        Some(n) => match first_named(t, resolved(ds, n, 0)) {
            Some(i) => Some((t[i as int].node, t[i as int].plots.len() > 0)),
            None => None,
        },
        None => None,
    }
}

/// The node the pointer is on and whether it is charted unless asked otherwise.
pub fn pointed(h: &Hover, t: &[TopoNode], ds: &Vec<Dock>) -> (r: Option<(String, bool)>)
    ensures
        match r {
            Some((n, charted)) => pointed_at(h@, t.deep_view(), ds.deep_view()) == Some(
                (n@, charted),
            ),
            None => pointed_at(h@, t.deep_view(), ds.deep_view()) is None,
        },
{
    match h.node() {
        Some(n) => match first_of(t, resolve(ds, n)) {
            Some(i) => {
                assert(t.deep_view()[i as int] == t@[i as int].deep_view());
                Some((t[i].node.clone(), t[i].plots.len() > 0))
            },
            None => None,
        },
        None => None,
    }
}

/// The newest activation of a node in a frame.
pub open spec fn act_named(acts: Seq<ActivationView>, node: Seq<char>) -> Option<nat>
    decreases acts.len(),
{
    if acts.len() == 0 {
        None
    } else if acts.last().node == node {
        Some((acts.len() - 1) as nat)
    } else {
        act_named(acts.drop_last(), node)
    }
}

/// The newest activation of a node in a frame.
pub fn find_act(acts: &[Activation], node: &str) -> (r: Option<usize>)
    ensures
        match r {
            Some(k) => act_named(acts.deep_view(), node@) == Some(k as nat) && k < acts@.len(),
            None => act_named(acts.deep_view(), node@) is None,
        },
{
    let ghost av = acts.deep_view();
    let mut n: usize = acts.len();
    assert(av.take(n as int) =~= av);
    while n > 0
        invariant
            av == acts.deep_view(),
            n <= acts@.len(),
            act_named(av, node@) == act_named(av.take(n as int), node@),
        decreases n,
    {
        proof {
            assert(av.take(n as int).last() == acts@[n - 1].deep_view());
            assert(av.take(n as int).drop_last() =~= av.take(n - 1));
        }
        if same(acts[n - 1].node.as_str(), node) {
            return Some(n - 1);
        }
        n -= 1;
    }
    None
}

/// A gate lets its node through: it has a value and the value is not zero.
pub open spec fn gate_open(vals: Option<Seq<Option<Bits>>>) -> bool {
    vals matches Some(v) && v[0] matches Some(x) && !zero(x)
}

/// Whether a gate lets its node through.
pub fn is_open(vals: &Option<Vec<Option<Bits>>>) -> (r: bool)
    requires
        vals matches Some(v) ==> v@.len() > 0,
    ensures
        r == gate_open(crate::api_types::listed(*vals)),
{
    match vals {
        Some(v) => match v[0] {
            Some(x) => !is_zero(x),
            None => false,
        },
        None => false,
    }
}

/// How many cells a row of a card's grid has: the last axis, so a higher rank reads as stacked slices.
pub fn grid_width(dims: &Vec<usize>) -> (r: usize)
    ensures
        r == if dims@.len() > 0 {
            dims@.last()
        } else {
            1
        },
{
    if dims.len() > 0 {
        dims[dims.len() - 1]
    } else {
        1
    }
}

/// A class name with what applies appended.
pub open spec fn marked(base: Seq<char>, mark: Seq<char>, on: bool) -> Seq<char> {
    if on {
        base + mark
    } else {
        base
    }
}

/// The class of a card.
pub fn card_class(fired: bool, dep: bool, selected: bool, buffered: bool) -> (r: String)
    ensures
        r@ == marked(
            marked(
                marked(marked("dag-card"@, " lit"@, fired), " dep"@, dep),
                " sel"@,
                selected,
            ),
            " hist"@,
            buffered,
        ),
{
    let mut s: String = "dag-card".to_owned();
    if fired {
        s.append(" lit");
    }
    if dep {
        s.append(" dep");
    }
    if selected {
        s.append(" sel");
    }
    if buffered {
        s.append(" hist");
    }
    s
}

/// The class of a docked gate or buffer, by what it is.
pub fn docked_class(gate: bool, fired: bool, selected: bool) -> (r: String)
    ensures
        r@ == marked(
            marked(
                if gate {
                    "dag-gate"@
                } else {
                    "dag-hist"@
                },
                " lit"@,
                fired,
            ),
            " sel"@,
            selected,
        ),
{
    let mut s: String = if gate {
        "dag-gate".to_owned()
    } else {
        "dag-hist".to_owned()
    };
    if fired {
        s.append(" lit");
    }
    if selected {
        s.append(" sel");
    }
    s
}

} // verus!
