//! The single-page front-end: its controls, and the history of the gates it has seen.
use vstd::prelude::*;
use vstd::utf8::encode_utf8;

use crate::api_types::{ActivationFrame, ActivationView, FrameView, TopoNode};
use crate::board::all_gates;
use crate::controls::{answer_view, AnswerView, CRUISE, FASTEST, SLOWEST};
use crate::ops::{Op, OpView};
use crate::panel::gate_open;
use crate::text::{clone_strings, lemma_encode_injective, same};

verus! {

/// The first text comes before the second, byte by byte.
pub open spec fn earlier(a: Seq<u8>, b: Seq<u8>) -> bool
    decreases a.len(),
{
    b.len() > 0 && (a.len() == 0 || a[0] < b[0] || (a[0] == b[0] && earlier(
        a.drop_first(),
        b.drop_first(),
    )))
}

/// The first name comes before the second.
pub open spec fn sorts_before(a: Seq<char>, b: Seq<char>) -> bool {
    earlier(encode_utf8(a), encode_utf8(b))
}

/// The names are sorted, each once.
pub open spec fn sorted(names: Seq<Seq<char>>) -> bool {
    forall|i: int, j: int|
        #![trigger names[i], names[j]]
        0 <= i < j < names.len() ==> sorts_before(names[i], names[j])
}

proof fn lemma_earlier_trans(a: Seq<u8>, b: Seq<u8>, c: Seq<u8>)
    requires
        earlier(a, b),
        earlier(b, c),
    ensures
        earlier(a, c),
    decreases a.len(),
{
    if a.len() > 0 && a[0] == b[0] && b[0] == c[0] {
        lemma_earlier_trans(a.drop_first(), b.drop_first(), c.drop_first());
    }
}

proof fn lemma_earlier_irreflexive(a: Seq<u8>)
    ensures
        !earlier(a, a),
    decreases a.len(),
{
    if a.len() > 0 {
        lemma_earlier_irreflexive(a.drop_first());
    }
}

proof fn lemma_earlier_total(a: Seq<u8>, b: Seq<u8>)
    ensures
        earlier(a, b) || earlier(b, a) || a == b,
    decreases a.len(),
{
    if a.len() > 0 && b.len() > 0 {
        if a[0] == b[0] {
            lemma_earlier_total(a.drop_first(), b.drop_first());
            if a.drop_first() == b.drop_first() {
                assert(a =~= seq![a[0]] + a.drop_first());
                assert(b =~= seq![b[0]] + b.drop_first());
            }
        }
    } else if a.len() == 0 && b.len() == 0 {
        assert(a =~= b);
    }
}

/// Whether the first name comes before the second.
fn is_before(a: &str, b: &str) -> (r: bool)
    ensures
        r == sorts_before(a@, b@),
{
    let x: &[u8] = a.as_bytes();
    let y: &[u8] = b.as_bytes();
    let mut i: usize = 0;
    assert(x@.skip(0) =~= x@);
    assert(y@.skip(0) =~= y@);
    while i < x.len() && i < y.len() && x[i] == y[i]
        invariant
            x@ == encode_utf8(a@),
            y@ == encode_utf8(b@),
            i <= x@.len(),
            i <= y@.len(),
            earlier(x@, y@) == earlier(x@.skip(i as int), y@.skip(i as int)),
        decreases x@.len() - i,
    {
        proof {
            let p = x@.skip(i as int);
            let q = y@.skip(i as int);
            assert(p[0] == x@[i as int] && q[0] == y@[i as int]);
            assert(p.drop_first() =~= x@.skip(i + 1));
            assert(q.drop_first() =~= y@.skip(i + 1));
        }
        i += 1;
    }
    proof {
        let p = x@.skip(i as int);
        let q = y@.skip(i as int);
        if i < x@.len() {
            assert(p[0] == x@[i as int]);
        }
        if i < y@.len() {
            assert(q[0] == y@[i as int]);
        }
    }
    i < y.len() && (i == x.len() || x[i] < y[i])
}

/// Puts a name where it sorts, unless it is there.
fn put_sorted(names: &mut Vec<String>, name: &str)
    requires
        sorted(old(names).deep_view()),
    ensures
        sorted(final(names).deep_view()),
        final(names).deep_view().to_set() == old(names).deep_view().to_set().insert(name@),
{
    let ghost was = names.deep_view();
    let mut k: usize = 0;
    while k < names.len() && is_before(names[k].as_str(), name)
        invariant
            was == names.deep_view(),
            k <= names@.len(),
            forall|j: int| #![trigger was[j]] 0 <= j < k ==> sorts_before(was[j], name@),
        decreases names@.len() - k,
    {
        assert(was[k as int] == names@[k as int]@);
        k += 1;
    }
    if k < names.len() && same(names[k].as_str(), name) {
        proof {
            assert(was[k as int] == name@);
            assert(was.to_set().insert(name@) =~= was.to_set());
        }
        return ;
    }
    names.insert(k, name.to_owned());
    proof {
        let now = names.deep_view();
        assert(now =~= was.insert(k as int, name@));
        lemma_inserted(was, k as int, name@);
    }
}

/// A name put between those before it and those after it leaves the names sorted.
proof fn lemma_inserted(was: Seq<Seq<char>>, k: int, name: Seq<char>)
    requires
        sorted(was),
        0 <= k <= was.len(),
        forall|j: int| #![trigger was[j]] 0 <= j < k ==> sorts_before(was[j], name),
        k < was.len() ==> !sorts_before(was[k], name) && was[k] != name,
    ensures
        sorted(was.insert(k, name)),
        was.insert(k, name).to_set() == was.to_set().insert(name),
{
    let now = was.insert(k, name);
    assert forall|j: int| #![trigger was[j]] k <= j < was.len() implies sorts_before(name, was[j]) by {
        lemma_earlier_total(encode_utf8(was[k]), encode_utf8(name));
        if encode_utf8(was[k]) == encode_utf8(name) {
            lemma_encode_injective(was[k], name);
        }
        assert(sorts_before(name, was[k]));
        if j > k {
            assert(sorts_before(was[k], was[j]));
            lemma_earlier_trans(encode_utf8(name), encode_utf8(was[k]), encode_utf8(was[j]));
        }
    }
    assert forall|i: int, j: int| #![trigger now[i], now[j]] 0 <= i < j < now.len() implies sorts_before(
        now[i],
        now[j],
    ) by {
        let a = if i < k {
            i
        } else {
            i - 1
        };
        let b = if j < k {
            j
        } else {
            j - 1
        };
        if i != k && j != k {
            assert(now[i] == was[a] && now[j] == was[b]);
            assert(sorts_before(was[a], was[b]));
        } else if i == k {
            assert(now[j] == was[b]);
        } else {
            assert(now[i] == was[a]);
        }
    }
    assert(now.to_set() =~= was.to_set().insert(name)) by {
        assert forall|x: Seq<char>| now.to_set().contains(x) <==> was.to_set().insert(name).contains(
            x,
        ) by {
            if now.contains(x) {
                let i = choose|i: int| 0 <= i < now.len() && now[i] == x;
                if i < k {
                    assert(was[i] == x);
                } else if i > k {
                    assert(was[i - 1] == x);
                }
            }
            if was.contains(x) {
                let i = choose|i: int| 0 <= i < was.len() && was[i] == x;
                if i < k {
                    assert(now[i] == x);
                } else {
                    assert(now[i + 1] == x);
                }
            }
            assert(now[k] == name);
        }
    }
}

/// The gates of a graph: every control edge of every node, sorted, each once.
pub fn gates_of(t: &[TopoNode]) -> (r: Vec<String>)
    ensures
        sorted(r.deep_view()),
        r.deep_view().to_set() == all_gates(t.deep_view(), t@.len()).to_set(),
{
    let ghost tv = t.deep_view();
    let mut out: Vec<String> = Vec::new();
    let mut i: usize = 0;
    proof {
        assert(out.deep_view().to_set() =~= all_gates(tv, 0).to_set());
    }
    while i < t.len()
        invariant
            tv == t.deep_view(),
            i <= t@.len(),
            sorted(out.deep_view()),
            out.deep_view().to_set() == all_gates(tv, i as nat).to_set(),
        decreases t@.len() - i,
    {
        let ghost before = all_gates(tv, i as nat);
        let gs: &Vec<String> = &t[i].gates;
        let ghost gv = tv[i as int].gates;
        assert(gv == gs.deep_view());
        let mut k: usize = 0;
        assert(before + gv.take(0) =~= before);
        while k < gs.len()
            invariant
                gv == gs.deep_view(),
                k <= gs@.len(),
                sorted(out.deep_view()),
                out.deep_view().to_set() == (before + gv.take(k as int)).to_set(),
            decreases gs@.len() - k,
        {
            put_sorted(&mut out, gs[k].as_str());
            proof {
                let a = before + gv.take(k as int);
                let b = before + gv.take(k + 1);
                assert(gv.take(k + 1) =~= gv.take(k as int).push(gv[k as int]));
                assert(b =~= a.push(gv[k as int]));
                lemma_push_set(a, gv[k as int]);
            }
            k += 1;
        }
        assert(gv.take(k as int) =~= gv);
        i += 1;
    }
    out
}

proof fn lemma_push_set(a: Seq<Seq<char>>, x: Seq<char>)
    ensures
        a.push(x).to_set() == a.to_set().insert(x),
{
    let b = a.push(x);
    assert forall|y: Seq<char>| b.to_set().contains(y) <==> a.to_set().insert(x).contains(y) by {
        if b.contains(y) {
            let i = choose|i: int| 0 <= i < b.len() && b[i] == y;
            if i < a.len() {
                assert(a[i] == y);
            }
        }
        if a.contains(y) {
            let i = choose|i: int| 0 <= i < a.len() && a[i] == y;
            assert(b[i] == y);
        }
        assert(b[b.len() - 1] == x);
    }
    assert(b.to_set() =~= a.to_set().insert(x));
}

/// What was seen of one gate: the ticks it changed on, and to what.
#[verifier::ext_equal]
pub struct TrackView {
    pub gate: Seq<char>,
    pub seen: Seq<(usize, bool)>,
}

/// What was seen of one gate.
pub struct Track {
    pub gate: String,
    pub seen: Vec<(usize, bool)>,
}

impl DeepView for Track {
    type V = TrackView;

    open spec fn deep_view(&self) -> TrackView {
        TrackView { gate: self.gate@, seen: self.seen@ }
    }
}

/// What was seen before `tick`.
pub open spec fn rewound(seen: Seq<(usize, bool)>, tick: usize) -> Seq<(usize, bool)>
    decreases seen.len(),
{
    if seen.len() > 0 && seen.last().0 >= tick {
        rewound(seen.drop_last(), tick)
    } else {
        seen
    }
}

/// What was seen, with a state of `open` on `tick` noted where that is news.
pub open spec fn noticed(seen: Seq<(usize, bool)>, tick: usize, open: bool) -> Seq<(usize, bool)> {
    if seen.len() > 0 && seen.last().1 == open {
        seen
    } else {
        seen.push((tick, open))
    }
}

/// The first activation of a node from `from` on.
pub open spec fn first_act(acts: Seq<ActivationView>, node: Seq<char>, from: nat) -> Option<nat>
    decreases acts.len() - from,
{
    if from >= acts.len() {
        None
    } else if acts[from as int].node == node {
        Some(from)
    } else {
        first_act(acts, node, from + 1)
    }
}

/// What was seen of one gate, brought up to a frame: nothing at or past its tick, and the state it
/// shows where that is news. A frame that does not show it only rewinds.
pub open spec fn brought_up(seen: Seq<(usize, bool)>, gate: Seq<char>, f: FrameView) -> Seq<(usize, bool)> {
    let past = rewound(seen, f.tick as usize);
    match first_act(f.activations, gate, 0) {
        Some(k) => noticed(past, f.tick as usize, gate_open(f.activations[k as int].vals)),
        None => past,
    }
}

/// Where a gate's track is.
pub open spec fn track_at(h: Seq<TrackView>, gate: Seq<char>, from: nat) -> Option<nat>
    decreases h.len() - from,
{
    if from >= h.len() {
        None
    } else if h[from as int].gate == gate {
        Some(from)
    } else {
        track_at(h, gate, from + 1)
    }
}

/// The history with a gate's track brought up to a frame, begun where it had none.
pub open spec fn with_gate(h: Seq<TrackView>, gate: Seq<char>, f: FrameView) -> Seq<TrackView> {
    match track_at(h, gate, 0) {
        Some(k) => h.update(
            k as int,
            TrackView { gate, seen: brought_up(h[k as int].seen, gate, f) },
        ),
        None => h.push(TrackView { gate, seen: brought_up(Seq::empty(), gate, f) }),
    }
}

/// The history with the first `n` gates brought up to a frame.
pub open spec fn with_gates(h: Seq<TrackView>, gates: Seq<Seq<char>>, n: nat, f: FrameView) -> Seq<
    TrackView,
>
    decreases n,
{
    if n == 0 {
        h
    } else {
        with_gate(with_gates(h, gates, (n - 1) as nat, f), gates[n - 1], f)
    }
}

/// Ticks ascend and states alternate: a track is a square wave.
pub open spec fn square(seen: Seq<(usize, bool)>) -> bool {
    forall|i: int|
        #![trigger seen[i]]
        0 < i < seen.len() ==> seen[i - 1].0 < seen[i].0 && seen[i - 1].1 != seen[i].1
}

proof fn lemma_rewound(seen: Seq<(usize, bool)>, tick: usize)
    requires
        square(seen),
    ensures
        square(rewound(seen, tick)),
        rewound(seen, tick).len() > 0 ==> rewound(seen, tick).last().0 < tick,
    decreases seen.len(),
{
    if seen.len() > 0 && seen.last().0 >= tick {
        let d = seen.drop_last();
        assert(square(d)) by {
            assert forall|i: int| #![trigger d[i]] 0 < i < d.len() implies d[i - 1].0 < d[i].0
                && d[i - 1].1 != d[i].1 by {
                assert(seen[i] == d[i]);
            }
        }
        lemma_rewound(d, tick);
    }
}

/// Whatever frames land, in whatever order, a gate's track stays a square wave.
pub proof fn a_track_stays_square(seen: Seq<(usize, bool)>, gate: Seq<char>, f: FrameView)
    requires
        square(seen),
    ensures
        square(brought_up(seen, gate, f)),
{
    let past = rewound(seen, f.tick as usize);
    lemma_rewound(seen, f.tick as usize);
    let now = brought_up(seen, gate, f);
    assert forall|i: int| #![trigger now[i]] 0 < i < now.len() implies now[i - 1].0 < now[i].0
        && now[i - 1].1 != now[i].1 by {
        if i < past.len() {
            assert(now[i] == past[i]);
        } else {
            assert(now[i - 1] == past.last());
        }
    }
}

/// What a frame shows of a gate, if anything, has a value to be read.
pub open spec fn readable_gate(f: FrameView, gate: Seq<char>) -> bool {
    match first_act(f.activations, gate, 0) {
        Some(k) => f.activations[k as int].vals matches Some(v) ==> v.len() > 0,
        None => true,
    }
}

/// What a frame shows of each gate has a value to be read.
pub open spec fn readable(f: FrameView, gates: Seq<Seq<char>>) -> bool {
    forall|n: int| #![trigger gates[n]] 0 <= n < gates.len() ==> readable_gate(f, gates[n])
}

/// Where the first activation of a gate is, past the last one where there is none.
fn find_gate(f: &ActivationFrame, gate: &str) -> (k: usize)
    ensures
        k <= f.activations@.len(),
        first_act(f.deep_view().activations, gate@, 0) == if k < f.activations@.len() {
            Some(k as nat)
        } else {
            None
        },
{
    let ghost fv = f.deep_view();
    let mut k: usize = 0;
    while k < f.activations.len() && !same(f.activations[k].node.as_str(), gate)
        invariant
            fv == f.deep_view(),
            k <= f.activations@.len(),
            first_act(fv.activations, gate@, 0) == first_act(fv.activations, gate@, k as nat),
        decreases f.activations@.len() - k,
    {
        assert(fv.activations[k as int].node == f.activations@[k as int].node@);
        k += 1;
    }
    if k < f.activations.len() {
        assert(fv.activations[k as int].node == f.activations@[k as int].node@);
    }
    k
}

/// Brings one gate's track up to a frame.
fn track(seen: &mut Vec<(usize, bool)>, gate: &str, f: &ActivationFrame)
    requires
        readable_gate(f.deep_view(), gate@),
    ensures
        final(seen)@ == brought_up(old(seen)@, gate@, f.deep_view()),
{
    let ghost fv = f.deep_view();
    let ghost start = seen@;
    while seen.len() > 0 && seen[seen.len() - 1].0 >= f.tick
        invariant
            rewound(seen@, f.tick) == rewound(start, f.tick),
        decreases seen@.len(),
    {
        let ghost was = seen@;
        seen.pop();
        assert(seen@ =~= was.drop_last());
    }
    let k: usize = find_gate(f, gate);
    if k < f.activations.len() {
        assert(fv.activations[k as int] == f.activations@[k as int].deep_view());
        let open: bool = crate::panel::is_open(&f.activations[k].vals);
        let stands: bool = seen.len() > 0 && seen[seen.len() - 1].1 == open;
        if !stands {
            seen.push((f.tick, open));
        }
    }
}

/// The single-page front-end's shared state.
pub struct Page {
    pub frame: Option<ActivationFrame>,
    pub playing: bool,
    /// Ticks per free-run poll.
    pub speed: usize,
    pub error: Option<String>,
    /// The nodes whose next change is searched for, each once.
    pub selected: Vec<String>,
    pub gates_visible: bool,
    /// Every gate of the graph, sorted.
    pub gates: Vec<String>,
    /// What was seen of each gate this session.
    pub hist: Vec<Track>,
}

/// What the single-page front-end's shared state is.
#[verifier::ext_equal]
pub struct PageView {
    pub frame: Option<FrameView>,
    pub playing: bool,
    pub speed: nat,
    pub error: Option<Seq<char>>,
    pub selected: Seq<Seq<char>>,
    pub gates_visible: bool,
    pub gates: Seq<Seq<char>>,
    pub hist: Seq<TrackView>,
}

impl View for Page {
    type V = PageView;

    open spec fn view(&self) -> PageView {
        PageView {
            frame: self.frame.deep_view(),
            playing: self.playing,
            speed: self.speed as nat,
            error: self.error.deep_view(),
            selected: self.selected.deep_view(),
            gates_visible: self.gates_visible,
            gates: self.gates.deep_view(),
            hist: self.hist.deep_view(),
        }
    }
}

impl PageView {
    /// A page that has just been opened.
    pub open spec fn opened() -> PageView {
        PageView {
            frame: None,
            playing: false,
            speed: CRUISE as nat,
            error: None,
            selected: Seq::empty(),
            gates_visible: false,
            gates: Seq::empty(),
            hist: Seq::empty(),
        }
    }

    /// An answer applied: a frame is shown and its gates are noted, and the run stops at the tape's
    /// end as it does on a failure.
    pub open spec fn applied(self, a: AnswerView) -> PageView {
        match a {
            AnswerView::Frame(f) => PageView {
                frame: Some(f),
                playing: self.playing && f.tick < f.total,
                hist: with_gates(self.hist, self.gates, self.gates.len(), f),
                ..self
            },
            AnswerView::Failed(e) => PageView { playing: false, error: Some(e), ..self },
        }
    }
}

impl Page {
    /// The speed is one the controls can reach, and each node is selected once.
    pub open spec fn wf(self) -> bool {
        SLOWEST <= self.speed <= FASTEST && self@.selected.no_duplicates()
    }

    /// A page that has just been opened.
    pub fn new() -> (r: Page)
        ensures
            r.wf(),
            r@ == PageView::opened(),
    {
        let r = Page {
            frame: None,
            playing: false,
            speed: CRUISE,
            error: None,
            selected: Vec::new(),
            gates_visible: false,
            gates: Vec::new(),
            hist: Vec::new(),
        };
        assert(r@ =~= PageView::opened());
        r
    }

    /// Takes in the graph: its gates are the union of the nodes' control edges.
    pub fn learn(&mut self, t: &[TopoNode])
        requires
            old(self).wf(),
        ensures
            final(self).wf(),
            final(self)@ == (PageView { gates: final(self)@.gates, ..old(self)@ }),
            sorted(final(self)@.gates),
            final(self)@.gates.to_set() == all_gates(t.deep_view(), t@.len()).to_set(),
    {
        self.gates = gates_of(t);
    }

    /// Whether what a frame shows of each gate has a value to be read.
    pub fn can_read(&self, f: &ActivationFrame) -> (r: bool)
        ensures
            r == readable(f.deep_view(), self@.gates),
    {
        let ghost fv = f.deep_view();
        let mut n: usize = 0;
        while n < self.gates.len()
            invariant
                fv == f.deep_view(),
                n <= self.gates@.len(),
                forall|j: int|
                    #![trigger self@.gates[j]]
                    0 <= j < n ==> readable_gate(fv, self@.gates[j]),
            decreases self.gates@.len() - n,
        {
            assert(self@.gates[n as int] == self.gates@[n as int]@);
            let k: usize = find_gate(f, self.gates[n].as_str());
            if k < f.activations.len() {
                assert(fv.activations[k as int] == f.activations@[k as int].deep_view());
                let empty: bool = match &f.activations[k].vals {
                    Some(v) => v.len() == 0,
                    None => false,
                };
                if empty {
                    return false;
                }
            }
            n += 1;
        }
        true
    }

    /// Brings the history up to a frame.
    fn record_gates(&mut self, f: &ActivationFrame)
        requires
            readable(f.deep_view(), old(self)@.gates),
        ensures
            final(self)@ == (PageView {
                hist: with_gates(
                    old(self)@.hist,
                    old(self)@.gates,
                    old(self)@.gates.len(),
                    f.deep_view(),
                ),
                ..old(self)@
            }),
    {
        let ghost was = self@;
        let ghost fv = f.deep_view();
        let mut n: usize = 0;
        while n < self.gates.len()
            invariant
                fv == f.deep_view(),
                readable(fv, was.gates),
                n <= self.gates@.len(),
                self@ == (PageView {
                    hist: with_gates(was.hist, was.gates, n as nat, fv),
                    ..was
                }),
            decreases self.gates@.len() - n,
        {
            let ghost mid = self@;
            let ghost g = was.gates[n as int];
            assert(g == self.gates@[n as int]@);
            let gate: String = self.gates[n].clone();
            match find_track(&self.hist, gate.as_str()) {
                Some(k) => {
                    assert(mid.hist[k as int] == self.hist@[k as int].deep_view());
                    track(&mut self.hist[k].seen, gate.as_str(), f);
                    assert(self.hist.deep_view() =~= with_gate(mid.hist, g, fv));
                },
                None => {
                    let mut seen: Vec<(usize, bool)> = Vec::new();
                    track(&mut seen, gate.as_str(), f);
                    self.hist.push(Track { gate, seen });
                    assert(self.hist.deep_view() =~= with_gate(mid.hist, g, fv));
                },
            }
            n += 1;
        }
    }

    /// Applies an answer; what is handed back is where the chart's cursor moves.
    pub fn apply(&mut self, res: Result<ActivationFrame, String>) -> (r: Option<i64>)
        requires
            old(self).wf(),
            res matches Ok(f) ==> readable(f.deep_view(), old(self)@.gates),
        ensures
            final(self).wf(),
            final(self)@ == old(self)@.applied(answer_view(res)),
            r == match res {
                Ok(f) => if f.ts_ns == 0 {
                    None
                } else {
                    Some(f.ts_ns)
                },
                Err(_) => None,
            },
    {
        match res {
            Ok(f) => {
                let ts_ns: i64 = f.ts_ns;
                self.record_gates(&f);
                if f.tick >= f.total {
                    self.playing = false;
                }
                self.frame = Some(f);
                if ts_ns == 0 {
                    None
                } else {
                    Some(ts_ns)
                }
            },
            Err(e) => {
                self.playing = false;
                self.error = Some(e);
                None
            },
        }
    }

    /// Selects a node, or lets go of it; what was selected first stays first.
    pub fn toggle_select(&mut self, node: &str)
        requires
            old(self).wf(),
        ensures
            final(self).wf(),
            final(self)@ == (PageView {
                selected: select_toggled(old(self)@.selected, node@),
                ..old(self)@
            }),
    {
        let ghost was = self@.selected;
        let mut k: usize = 0;
        while k < self.selected.len() && !same(self.selected[k].as_str(), node)
            invariant
                was == self.selected.deep_view(),
                k <= self.selected@.len(),
                name_at(was, node@, 0) == name_at(was, node@, k as nat),
                forall|j: int| #![trigger was[j]] 0 <= j < k ==> was[j] != node@,
            decreases self.selected@.len() - k,
        {
            assert(was[k as int] == self.selected@[k as int]@);
            k += 1;
        }
        if k < self.selected.len() {
            assert(was[k as int] == self.selected@[k as int]@);
            self.selected.remove(k);
            assert(self.selected.deep_view() =~= was.remove(k as int));
        } else {
            self.selected.push(node.to_owned());
            assert(self.selected.deep_view() =~= was.push(node@));
        }
    }

    /// The search for the next change in the selected nodes; nothing selected is nothing to search.
    pub fn change_op(&self) -> (r: Option<Op>)
        ensures
            match r {
                Some(op) => self@.selected.len() > 0 && op@ == (OpView::StepUntilChange {
                    nodes: self@.selected,
                }),
                None => self@.selected.len() == 0,
            },
    {
        if self.selected.len() == 0 {
            return None;
        }
        Some(Op::StepUntilChange { nodes: clone_strings(&self.selected) })
    }

    /// Plays or pauses.
    pub fn toggle_play(&mut self)
        requires
            old(self).wf(),
        ensures
            final(self).wf(),
            final(self)@ == (PageView { playing: !old(self)@.playing, ..old(self)@ }),
    {
        self.playing = !self.playing;
    }

    /// Shows or hides the gates.
    pub fn toggle_gates(&mut self)
        requires
            old(self).wf(),
        ensures
            final(self).wf(),
            final(self)@ == (PageView { gates_visible: !old(self)@.gates_visible, ..old(self)@ }),
    {
        self.gates_visible = !self.gates_visible;
    }

    /// Doubles the speed, up to [`FASTEST`].
    pub fn speed_up(&mut self)
        requires
            old(self).wf(),
        ensures
            final(self).wf(),
            final(self)@ == (PageView {
                speed: if old(self)@.speed * 2 < FASTEST {
                    old(self)@.speed * 2
                } else {
                    FASTEST as nat
                },
                ..old(self)@
            }),
    {
        let doubled: usize = self.speed * 2;
        self.speed = if doubled < FASTEST {
            doubled
        } else {
            FASTEST
        };
    }

    /// Halves the speed, down to [`SLOWEST`].
    pub fn speed_down(&mut self)
        requires
            old(self).wf(),
        ensures
            final(self).wf(),
            final(self)@ == (PageView {
                speed: if old(self)@.speed / 2 > SLOWEST {
                    old(self)@.speed / 2
                } else {
                    SLOWEST as nat
                },
                ..old(self)@
            }),
    {
        let halved: usize = self.speed / 2;
        self.speed = if halved > SLOWEST {
            halved
        } else {
            SLOWEST
        };
    }
}

/// Where the track of `gate` is.
pub fn find_track(h: &Vec<Track>, gate: &str) -> (r: Option<usize>)
    ensures
        match r {
            Some(k) => k < h@.len() && h@[k as int].gate@ == gate@ && track_at(
                h.deep_view(),
                gate@,
                0,
            ) == Some(k as nat),
            None => track_at(h.deep_view(), gate@, 0) is None,
        },
{
    let ghost hv = h.deep_view();
    let mut k: usize = 0;
    while k < h.len()
        invariant
            hv == h.deep_view(),
            k <= h@.len(),
            track_at(hv, gate@, 0) == track_at(hv, gate@, k as nat),
        decreases h@.len() - k,
    {
        assert(hv[k as int].gate == h@[k as int].gate@);
        if same(h[k].gate.as_str(), gate) {
            return Some(k);
        }
        k += 1;
    }
    None
}

impl Track {
    /// Whether it was last seen open.
    pub fn is_open(&self) -> (r: bool)
        ensures
            r == (self.seen@.len() > 0 && self.seen@.last().1),
    {
        let n: usize = self.seen.len();
        n > 0 && self.seen[n - 1].1
    }
}

/// Where a name is.
pub open spec fn name_at(names: Seq<Seq<char>>, name: Seq<char>, from: nat) -> Option<nat>
    decreases names.len() - from,
{
    if from >= names.len() {
        None
    } else if names[from as int] == name {
        Some(from)
    } else {
        name_at(names, name, from + 1)
    }
}

/// The names without `name` where it is one of them, with it at the end where it is not.
pub open spec fn select_toggled(names: Seq<Seq<char>>, name: Seq<char>) -> Seq<Seq<char>> {
    match name_at(names, name, 0) {
        Some(k) => names.remove(k as int),
        None => names.push(name),
    }
}

/// The keys the page listens to.
pub open spec fn is_page_key(key: Seq<char>) -> bool {
    key == " "@ || key == "p"@ || key == "-"@ || key == "="@ || key == "0"@ || key == "b"@ || key
        == "c"@ || key == "n"@ || key == "g"@
}

/// Whether a key press is the page's: a held modifier means another chord, never ours.
pub fn takes_key(key: &str, ctrl: bool, meta: bool, alt: bool) -> (r: bool)
    ensures
        r == (!ctrl && !meta && !alt && is_page_key(key@)),
{
    !ctrl && !meta && !alt && (same(key, " ") || same(key, "p") || same(key, "-") || same(key, "=")
        || same(key, "0") || same(key, "b") || same(key, "c") || same(key, "n") || same(key, "g"))
}

/// What a key asks of the page.
#[derive(Clone, Copy, Debug, PartialEq, Eq)]
pub enum PageAction {
    /// Step one tick.
    StepOne,
    /// Play or pause.
    TogglePlay,
    /// Halve the speed.
    Slower,
    /// Double the speed.
    Faster,
    /// Go to the start.
    Start,
    /// Search for the next bar.
    NextBar,
    /// Search for the next classification.
    NextClassify,
    /// Search for the next change in the selected nodes.
    UntilChange,
    /// Show or hide the gates.
    ToggleGates,
    /// Nothing.
    Ignore,
}

/// What a key asks of the page.
pub open spec fn page_action(key: Seq<char>) -> PageAction {
    if key == " "@ {
        PageAction::StepOne
    } else if key == "p"@ {
        PageAction::TogglePlay
    } else if key == "-"@ {
        PageAction::Slower
    } else if key == "="@ {
        PageAction::Faster
    } else if key == "0"@ {
        PageAction::Start
    } else if key == "b"@ {
        PageAction::NextBar
    } else if key == "c"@ {
        PageAction::NextClassify
    } else if key == "n"@ {
        PageAction::UntilChange
    } else if key == "g"@ {
        PageAction::ToggleGates
    } else {
        PageAction::Ignore
    }
}

/// What a key asks of the page.
pub fn page_action_of(key: &str) -> (r: PageAction)
    ensures
        r == page_action(key@),
{
    if same(key, " ") {
        PageAction::StepOne
    } else if same(key, "p") {
        PageAction::TogglePlay
    } else if same(key, "-") {
        PageAction::Slower
    } else if same(key, "=") {
        PageAction::Faster
    } else if same(key, "0") {
        PageAction::Start
    } else if same(key, "b") {
        PageAction::NextBar
    } else if same(key, "c") {
        PageAction::NextClassify
    } else if same(key, "n") {
        PageAction::UntilChange
    } else if same(key, "g") {
        PageAction::ToggleGates
    } else {
        PageAction::Ignore
    }
}

/// The corners of a track's square wave up to `tick`: before each change the old state, then the new
/// one, and the last state carried to the end.
pub open spec fn corners(seen: Seq<(usize, bool)>) -> Seq<(usize, bool)>
    decreases seen.len(),
{
    if seen.len() == 0 {
        Seq::empty()
    } else {
        let d = seen.drop_last();
        let r = corners(d);
        let (t, b) = seen.last();
        if d.len() > 0 {
            r.push((t, d.last().1)).push((t, b))
        } else {
            r.push((t, b))
        }
    }
}

/// The corners of a track's square wave up to `tick`.
pub fn wave(seen: &[(usize, bool)], tick: usize) -> (r: Vec<(usize, bool)>)
    ensures
        r@ == if seen@.len() > 0 {
            corners(seen@).push((tick, seen@.last().1))
        } else {
            Seq::empty()
        },
{
    let mut out: Vec<(usize, bool)> = Vec::new();
    let mut k: usize = 0;
    assert(seen@.take(0) =~= Seq::empty());
    while k < seen.len()
        invariant
            k <= seen@.len(),
            out@ == corners(seen@.take(k as int)),
        decreases seen@.len() - k,
    {
        proof {
            assert(seen@.take(k + 1).drop_last() =~= seen@.take(k as int));
            if k > 0 {
                assert(seen@.take(k as int).last() == seen@[k - 1]);
            }
        }
        let (t, b): (usize, bool) = seen[k];
        if k > 0 {
            out.push((t, seen[k - 1].1));
        }
        out.push((t, b));
        k += 1;
    }
    assert(seen@.take(k as int) =~= seen@);
    if seen.len() > 0 {
        out.push((tick, seen[seen.len() - 1].1));
    }
    out
}

/// Every key the page listens to does something, and no other key does.
pub proof fn listened_keys_act(key: Seq<char>)
    ensures
        is_page_key(key) <==> page_action(key) != PageAction::Ignore,
{
}

} // verus!
