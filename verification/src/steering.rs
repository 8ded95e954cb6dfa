//! The laws of the front-ends: what a key asks for, what an answer does to the shared state, when the
//! free run polls, and what is kept of a gate.
use vstd::prelude::*;
use vstd::utf8::encode_utf8;

use crate::api_types::{ActivationView, FrameView, TopoNode, TopoView};
use crate::controls::{
    bar_from, hidden_names, key_action, Action, AnswerView, Controls, ControlsView, Landing,
};
use crate::drawing::{is_zero_value, weighs};
use crate::floats::Bits;
use crate::frames::{same_activation, same_frame, same_listed, same_slot};
use crate::gates::{
    brought_up, corners, earlier, first_act, name_at, page_action, readable, readable_gate, rewound,
    select_toggled, sorts_before, square, track_at, with_gate, with_gates, Page, PageView,
    TrackView,
};
use crate::maps::{flags_of, names_of};
use crate::model::TapeView;
use crate::ops::{after_op, op_answer, Op};
use crate::reporting::is_nan_value;

verus! {

/// The one-letter texts differ.
proof fn lemma_keys_differ()
    ensures
        forall|x: Seq<char>, y: Seq<char>| #![trigger x[0], y[0]] x[0] != y[0] ==> x != y,
        " "@.len() == 1 && " "@[0] == ' ',
        "p"@.len() == 1 && "p"@[0] == 'p',
        "-"@.len() == 1 && "-"@[0] == '-',
        "="@.len() == 1 && "="@[0] == '=',
        "0"@.len() == 1 && "0"@[0] == '0',
        "b"@.len() == 1 && "b"@[0] == 'b',
        "c"@.len() == 1 && "c"@[0] == 'c',
        "n"@.len() == 1 && "n"@[0] == 'n',
        "l"@.len() == 1 && "l"@[0] == 'l',
        "v"@.len() == 1 && "v"@[0] == 'v',
        "C"@.len() == 1 && "C"@[0] == 'C',
        "g"@.len() == 1 && "g"@[0] == 'g',
{
    reveal_strlit(" ");
    reveal_strlit("p");
    reveal_strlit("-");
    reveal_strlit("=");
    reveal_strlit("0");
    reveal_strlit("b");
    reveal_strlit("c");
    reveal_strlit("n");
    reveal_strlit("l");
    reveal_strlit("v");
    reveal_strlit("C");
    reveal_strlit("g");
}

/// Each key asks for its own action: the space steps, `p` plays, `-` and `=` change the speed, `0` goes to
/// the start, `b` and `c` search for the bar and for the classification, `n` for a change, `l` follows,
/// `v` and `C` choose what is charted. The bar key asks for nothing on a graph without a bar.
pub proof fn a_key_asks_for_its_action(key: Seq<char>, bar: Option<Seq<char>>, a: Action)
    requires
        a@ == key_action(key, bar),
    ensures
        key == seq![' '] <==> a is StepOne,
        key == seq!['p'] <==> a is TogglePlay,
        key == seq!['-'] <==> a is Slower,
        key == seq!['='] <==> a is Faster,
        key == seq!['0'] <==> a is Start,
        key == seq!['n'] <==> a is UntilChange,
        key == seq!['l'] <==> a is Follow,
        key == seq!['v'] <==> a is ToggleView,
        key == seq!['C'] <==> a is ClearViews,
        key == seq!['b'] && bar is Some ==> a is Until && a->Until_0@ == bar->Some_0,
        key == seq!['b'] && bar is None ==> a is Ignore,
        key == seq!['c'] ==> a is Until && a->Until_0@ == "Classify"@,
        a is Until ==> key == seq!['b'] || key == seq!['c'],
{
    lemma_keys_differ();
    assert(" "@ =~= seq![' ']);
    assert("p"@ =~= seq!['p']);
    assert("-"@ =~= seq!['-']);
    assert("="@ =~= seq!['=']);
    assert("0"@ =~= seq!['0']);
    assert("b"@ =~= seq!['b']);
    assert("c"@ =~= seq!['c']);
    assert("n"@ =~= seq!['n']);
    assert("l"@ =~= seq!['l']);
    assert("v"@ =~= seq!['v']);
    assert("C"@ =~= seq!['C']);
}

/// Each key of the page asks for its own action, and `g` for the gates.
pub proof fn a_page_key_asks_for_its_action(key: Seq<char>)
    ensures
        key == seq![' '] <==> page_action(key) is StepOne,
        key == seq!['p'] <==> page_action(key) is TogglePlay,
        key == seq!['-'] <==> page_action(key) is Slower,
        key == seq!['='] <==> page_action(key) is Faster,
        key == seq!['0'] <==> page_action(key) is Start,
        key == seq!['b'] <==> page_action(key) is NextBar,
        key == seq!['c'] <==> page_action(key) is NextClassify,
        key == seq!['n'] <==> page_action(key) is UntilChange,
        key == seq!['g'] <==> page_action(key) is ToggleGates,
{
    lemma_keys_differ();
    assert(" "@ =~= seq![' ']);
    assert("p"@ =~= seq!['p']);
    assert("-"@ =~= seq!['-']);
    assert("="@ =~= seq!['=']);
    assert("0"@ =~= seq!['0']);
    assert("b"@ =~= seq!['b']);
    assert("c"@ =~= seq!['c']);
    assert("n"@ =~= seq!['n']);
    assert("g"@ =~= seq!['g']);
}

proof fn lemma_bar(t: Seq<TopoView>, from: nat)
    ensures
        match bar_from(t, from) {
            Some(b) => exists|i: int|
                #![trigger t[i]]
                {
                    &&& from <= i < t.len()
                    &&& t[i].node == b
                    &&& "Bar"@.is_prefix_of(b)
                    &&& forall|j: int|
                        #![trigger t[j]]
                        from <= j < i ==> !"Bar"@.is_prefix_of(t[j].node)
                },
            None => forall|j: int|
                #![trigger t[j]]
                from <= j < t.len() ==> !"Bar"@.is_prefix_of(t[j].node),
        },
    decreases t.len() - from,
{
    if from < t.len() {
        if "Bar"@.is_prefix_of(t[from as int].node) {
            assert(t[from as int].node == bar_from(t, from)->Some_0);
        } else {
            lemma_bar(t, from + 1);
            if bar_from(t, from) is Some {
                let b = bar_from(t, from)->Some_0;
                let i = choose|i: int|
                    #![trigger t[i]]
                    {
                        &&& from + 1 <= i < t.len()
                        &&& t[i].node == b
                        &&& "Bar"@.is_prefix_of(b)
                        &&& forall|j: int|
                            #![trigger t[j]]
                            from + 1 <= j < i ==> !"Bar"@.is_prefix_of(t[j].node)
                    };
                assert(t[i].node == b);
            }
        }
    }
}

/// The graph's bar is the first of its nodes whose name begins as a bar's does, none where none does.
pub proof fn the_bar_is_the_first_of_its_name(t: Seq<TopoView>)
    ensures
        match bar_from(t, 0) {
            Some(b) => exists|i: int|
                #![trigger t[i]]
                {
                    &&& 0 <= i < t.len()
                    &&& t[i].node == b
                    &&& "Bar"@.is_prefix_of(b)
                    &&& forall|j: int| #![trigger t[j]] 0 <= j < i ==> !"Bar"@.is_prefix_of(t[j].node)
                },
            None => forall|j: int| #![trigger t[j]] 0 <= j < t.len() ==> !"Bar"@.is_prefix_of(t[j].node),
        },
{
    lemma_bar(t, 0);
}

/// What the controls are said to be is what they hold.
pub proof fn controls_are_what_they_hold(c: Controls)
    ensures
        c@.playing == c.playing,
        c@.follow == c.follow,
        c@.speed == c.speed,
        c@.generation == c.generation,
        c@.polls == c.polls,
        c@.selected == names_of(c.selected),
        c@.views == flags_of(c.views),
        c@.frame is Some <==> c.frame is Some,
        c.frame matches Some(f) ==> c@.frame == Some(f.deep_view()),
        c@.error is Some <==> c.error is Some,
        c.error matches Some(e) ==> c@.error == Some(e@),
        c@.waiting is Some <==> c.waiting is Some,
        c.waiting matches Some(k) ==> c@.waiting == Some(k@),
        c@.hovered is Some <==> c.hovered is Some,
        c.hovered matches Some((n, d)) ==> c@.hovered == Some((n@, d)),
{
}

/// A page opens on nothing: paused, riding the tape's end at 512 ticks a poll, with the stored choices.
pub proof fn a_page_opens_on_nothing(views: Map<Seq<char>, bool>)
    ensures
        ({
            let c = ControlsView::opened(views);
            &&& c.frame is None
            &&& !c.playing
            &&& c.follow
            &&& c.speed == 512
            &&& c.error is None
            &&& forall|n: Seq<char>| !#[trigger] c.selected.contains(n)
            &&& c.waiting is None
            &&& c.views == views
            &&& c.hovered is None
            &&& c.generation == 0
            &&& c.polls == 0
        }),
{
}

/// A node is charted as chosen, and where nothing was chosen exactly if it has plots.
pub proof fn a_node_is_charted_as_chosen(c: Controls, n: TopoNode)
    ensures
        flags_of(c.views).contains_key(n.node@) ==> c@.shows(n.deep_view()) == flags_of(
            c.views,
        )[n.node@],
        !flags_of(c.views).contains_key(n.node@) ==> (c@.shows(n.deep_view()) <==> n.plots@.len() > 0),
{
}

/// How many of the first `n` nodes are not charted.
pub open spec fn hidden_before(c: ControlsView, t: Seq<TopoView>, n: nat) -> nat
    decreases n,
{
    if n == 0 {
        0
    } else {
        hidden_before(c, t, (n - 1) as nat) + if is_charted(c, t[n - 1]) {
            0nat
        } else {
            1nat
        }
    }
}

/// The node is charted: chosen so, or not chosen and with plots.
pub open spec fn is_charted(c: ControlsView, n: TopoView) -> bool {
    if c.views.contains_key(n.node) {
        c.views[n.node]
    } else {
        n.plots.len() != 0
    }
}

proof fn lemma_hidden(c: ControlsView, t: Seq<TopoView>, n: nat, i: int)
    requires
        n <= t.len(),
    ensures
        hidden_names(c, t, n).len() == hidden_before(c, t, n),
        0 <= i < n && !is_charted(c, t[i]) ==> hidden_before(c, t, i as nat) < hidden_before(c, t, n)
            && hidden_names(c, t, n)[hidden_before(c, t, i as nat) as int] == t[i].node,
    decreases n,
{
    if n > 0 {
        lemma_hidden(c, t, (n - 1) as nat, i);
    }
}

/// What is hidden is every node that is not charted, in step order, and no other.
pub proof fn what_is_not_charted_is_hidden(c: ControlsView, t: Seq<TopoView>, i: int)
    requires
        0 <= i < t.len(),
    ensures
        hidden_names(c, t, t.len()).len() == hidden_before(c, t, t.len()),
        !is_charted(c, t[i]) ==> hidden_before(c, t, i as nat) < hidden_before(c, t, t.len())
            && hidden_names(c, t, t.len())[hidden_before(c, t, i as nat) as int] == t[i].node,
{
    lemma_hidden(c, t, t.len(), i);
}

/// Toggling turns the pointed-at node's choice round, from its default where it has none, and changes
/// nothing else; with nothing under the pointer it changes nothing at all.
pub proof fn a_toggle_changes_one_choice(c: ControlsView, n: Seq<char>)
    ensures
        c.hovered is None ==> c.view_toggled() == c,
        c.view_toggled() == (ControlsView { views: c.view_toggled().views, ..c }),
        c.hovered matches Some((h, d)) ==> {
            &&& c.view_toggled().views.contains_key(h)
            &&& c.views.contains_key(h) ==> c.view_toggled().views[h] != c.views[h]
            &&& !c.views.contains_key(h) ==> c.view_toggled().views[h] != d
            &&& n != h ==> (c.view_toggled().views.contains_key(n) <==> c.views.contains_key(n))
            &&& n != h && c.views.contains_key(n) ==> c.view_toggled().views[n] == c.views[n]
        },
{
}

/// Selecting turns one node's selection round and changes nothing else.
pub proof fn a_selection_changes_one_node(c: ControlsView, node: Seq<char>, n: Seq<char>)
    ensures
        c.select_toggled(node).selected.contains(node) == !c.selected.contains(node),
        n != node ==> c.select_toggled(node).selected.contains(n) == c.selected.contains(n),
        c.select_toggled(node) == (ControlsView { selected: c.select_toggled(node).selected, ..c }),
{
}

/// The two slots read alike: both empty, or both the same number; a NaN reads like nothing.
pub open spec fn reads_alike(a: Option<Bits>, b: Option<Bits>) -> bool {
    match a {
        None => b is None,
        Some(x) => b matches Some(y) && ((x == y && !is_nan_value(x)) || (is_zero_value(x)
            && is_zero_value(y))),
    }
}

/// Slot by slot the lists read alike.
pub open spec fn lists_read_alike(a: Option<Seq<Option<Bits>>>, b: Option<Seq<Option<Bits>>>) -> bool {
    match a {
        None => b is None,
        Some(x) => b matches Some(y) && x.len() == y.len() && forall|k: int|
            #![trigger x[k]]
            0 <= k < x.len() ==> reads_alike(x[k], y[k]),
    }
}

proof fn lemma_slot(a: Option<Bits>, b: Option<Bits>)
    ensures
        same_slot(a, b) <==> reads_alike(a, b),
{
    if a is Some && b is Some {
        let x = a->Some_0;
        let y = b->Some_0;
        assert(x % 0x8000_0000_0000_0000 == 0 <==> x == 0 || x == 0x8000_0000_0000_0000);
        assert(y % 0x8000_0000_0000_0000 == 0 <==> y == 0 || y == 0x8000_0000_0000_0000);
    }
}

proof fn lemma_lists(a: Option<Seq<Option<Bits>>>, b: Option<Seq<Option<Bits>>>)
    ensures
        same_listed(a, b) <==> lists_read_alike(a, b),
{
    if a is Some && b is Some {
        let x = a->Some_0;
        let y = b->Some_0;
        assert forall|k: int| #![trigger x[k]] 0 <= k < x.len() implies (same_slot(x[k], y[k])
            <==> reads_alike(x[k], y[k])) by {
            lemma_slot(x[k], y[k]);
        }
    }
}

/// Two activations show the same exactly where every field does: the numbers read alike, everything else
/// is equal.
pub proof fn activations_match_field_by_field(a: ActivationView, b: ActivationView)
    ensures
        same_activation(a, b) <==> {
            &&& a.node == b.node
            &&& a.deps == b.deps
            &&& a.gates == b.gates
            &&& a.out == b.out
            &&& a.detail == b.detail
            &&& a.ran == b.ran
            &&& a.fired == b.fired
            &&& a.dims == b.dims
            &&& a.exact == b.exact
            &&& reads_alike(a.cost_ns, b.cost_ns)
            &&& lists_read_alike(a.vals, b.vals)
            &&& lists_read_alike(a.jac, b.jac)
            &&& a.exact_block is Some <==> b.exact_block is Some
            &&& a.exact_block matches Some(x) ==> x.widths == b.exact_block->Some_0.widths
                && lists_read_alike(Some(x.cols), Some(b.exact_block->Some_0.cols))
        },
{
    lemma_slot(a.cost_ns, b.cost_ns);
    lemma_lists(a.vals, b.vals);
    lemma_lists(a.jac, b.jac);
    if a.exact_block is Some && b.exact_block is Some {
        lemma_lists(Some(a.exact_block->Some_0.cols), Some(b.exact_block->Some_0.cols));
    }
}

/// Two frames show the same exactly where they stand on the same tick of the same tape with the same
/// answer, and their activations match one for one.
pub proof fn frames_match_field_by_field(a: FrameView, b: FrameView)
    ensures
        same_frame(a, b) <==> {
            &&& a.tick == b.tick
            &&& a.total == b.total
            &&& a.ts_ns == b.ts_ns
            &&& a.found == b.found
            &&& a.pending == b.pending
            &&& a.sealed == b.sealed
            &&& a.gap == b.gap
            &&& a.dropped == b.dropped
            &&& a.activations.len() == b.activations.len()
            &&& forall|k: int|
                #![trigger a.activations[k]]
                0 <= k < a.activations.len() ==> same_activation(a.activations[k], b.activations[k])
        },
{
}

/// A frame that shows something new is put on show and moves the chart's cursor to its time, where it has
/// one; one that shows the same changes nothing. Nothing else is touched.
pub proof fn a_new_frame_is_put_on_show(c: ControlsView, f: FrameView)
    ensures
        ({
            let a = AnswerView::Frame(f);
            let z = c.applied(a);
            let known = c.frame is Some && same_frame(c.frame->Some_0, f);
            &&& known ==> z == c && c.cursor_moves(a) is None
            &&& !known ==> z.frame == Some(f) && z == (ControlsView { frame: Some(f), ..c })
            &&& !known && f.ts_ns != 0 ==> c.cursor_moves(a) == Some(f.ts_ns)
            &&& !known && f.ts_ns == 0 ==> c.cursor_moves(a) is None
        }),
{
}

/// A failure is reported and stops the run; the frame on show and the cursor stay.
pub proof fn a_failure_stops_the_run(c: ControlsView, e: Seq<char>)
    ensures
        ({
            let a = AnswerView::Failed(e);
            let z = c.applied(a);
            &&& !z.playing
            &&& z.error == Some(e)
            &&& z == (ControlsView { playing: false, error: Some(e), ..c })
            &&& c.cursor_moves(a) is None
        }),
{
}

/// An op is answered once for each time it is taken up: the newest one's answer is applied and ends the
/// wait unless the tape cannot satisfy it yet, and an older one's answer is dropped.
pub proof fn only_the_newest_op_lands(
    c: ControlsView,
    key: Seq<char>,
    generation: nat,
    a: AnswerView,
)
    ensures
        c.begun(key).generation == c.generation + 1,
        !c.begun(key).follow,
        c.begun(key).waiting == Some(key),
        c.begun(key) == (ControlsView {
            generation: c.generation + 1,
            follow: false,
            waiting: Some(key),
            ..c
        }),
        generation != c.generation ==> c.landed(generation, a) == c && c.landing(generation, a)
            == Landing::Superseded,
        ({
            let waits = a is Frame && a->Frame_0.pending;
            &&& generation == c.generation && waits ==> c.landing(generation, a) == Landing::Again
                && c.landed(generation, a) == c.applied(a)
            &&& generation == c.generation && !waits ==> c.landing(generation, a) == Landing::Done
                && c.landed(generation, a) == (ControlsView { waiting: None, ..c.applied(a) })
        }),
{
}

/// A poll steps to the end while the cursor rides it, by the speed while playing, else not at all. The
/// chart is fetched again every 20th poll while either goes on and every 100th while neither does, and
/// never once the recording is over, which there is no riding either.
pub proof fn a_poll_goes_by_the_state(c: ControlsView)
    ensures
        ({
            let over = c.frame is Some && c.frame->Some_0.sealed;
            let rides = c.follow && !over;
            let (step, refetch) = c.next_poll();
            let n = c.polls + 1;
            &&& c.following() == rides
            &&& rides ==> step == Some(usize::MAX as nat)
            &&& !rides && c.playing ==> step == Some(c.speed)
            &&& !rides && !c.playing ==> step is None
            &&& over ==> !refetch
            &&& !over && (c.playing || rides) ==> (refetch <==> n % 20 == 0)
            &&& !over && !c.playing && !rides ==> (refetch <==> n % 100 == 0)
        }),
{
}

/// Each op is the cursor's own operation of that name, and where the op says nothing of its own its answer
/// is the frame the cursor then stands on.
pub proof fn an_op_is_the_cursors_own(t: TapeView, op: Op)
    ensures
        op is Status ==> after_op(t, op@) == t && op_answer(t, op@) == t.frame(),
        op matches Op::Step { n } ==> {
            let z = t.stepped(n as nat);
            &&& after_op(t, op@) == z
            &&& op_answer(t, op@) == (FrameView { pending: t.step_pending(n as nat), ..z.frame() })
        },
        op matches Op::Seek { tick } ==> {
            let z = t.sought(tick as nat);
            &&& after_op(t, op@) == z
            &&& op_answer(t, op@) == (FrameView { pending: t.seek_pending(tick as nat), ..z.frame() })
        },
        op matches Op::SeekTs { ts_ns } ==> {
            let z = t.sought_ts(ts_ns);
            &&& after_op(t, op@) == z
            &&& op_answer(t, op@) == (FrameView { pending: t.seek_ts_pending(ts_ns), ..z.frame() })
        },
        op matches Op::StepUntil { node } ==> match t.until(node@) {
            Some(ws) => after_op(t, op@) == t.scanned(ws) && op_answer(t, op@) == t.scan_frame(ws),
            None => after_op(t, op@) == t && op_answer(t, op@) == (FrameView {
                found: false,
                ..t.frame()
            }),
        },
        op matches Op::StepUntilChange { nodes } ==> {
            let ws = t.watching(nodes.deep_view(), t.nodes());
            after_op(t, op@) == t.scanned(ws) && op_answer(t, op@) == t.scan_frame(ws)
        },
{
}

/// What the page is said to be is what it holds.
pub proof fn a_page_is_what_it_holds(p: Page, k: int)
    ensures
        p@.playing == p.playing,
        p@.speed == p.speed,
        p@.gates_visible == p.gates_visible,
        p@.frame is Some <==> p.frame is Some,
        p.frame matches Some(f) ==> p@.frame == Some(f.deep_view()),
        p@.error is Some <==> p.error is Some,
        p.error matches Some(e) ==> p@.error == Some(e@),
        p@.selected.len() == p.selected@.len(),
        0 <= k < p.selected@.len() ==> p@.selected[k] == p.selected@[k]@,
        p@.gates.len() == p.gates@.len(),
        0 <= k < p.gates@.len() ==> p@.gates[k] == p.gates@[k]@,
        p@.hist.len() == p.hist@.len(),
        0 <= k < p.hist@.len() ==> p@.hist[k].gate == p.hist@[k].gate@ && p@.hist[k].seen
            == p.hist@[k].seen@,
{
}

/// An answer on the page: a frame is shown and noted of the gates, the run goes on only short of the
/// tape's end, and a failure is reported and stops it. Nothing else is touched.
pub proof fn a_page_shows_its_answer(p: PageView, f: FrameView, e: Seq<char>)
    ensures
        ({
            let z = p.applied(AnswerView::Frame(f));
            &&& z.frame == Some(f)
            &&& z.playing <==> p.playing && f.tick < f.total
            &&& z == (PageView { frame: Some(f), playing: z.playing, hist: z.hist, ..p })
        }),
        p.applied(AnswerView::Failed(e)) == (PageView { playing: false, error: Some(e), ..p }),
        PageView::opened().frame is None,
        !PageView::opened().playing,
        PageView::opened().speed == 512,
        PageView::opened().error is None,
        PageView::opened().selected.len() == 0,
        !PageView::opened().gates_visible,
        PageView::opened().gates.len() == 0,
        PageView::opened().hist.len() == 0,
{
}

proof fn lemma_name_at(names: Seq<Seq<char>>, name: Seq<char>, from: nat)
    ensures
        match name_at(names, name, from) {
            Some(k) => from <= k < names.len() && names[k as int] == name && forall|j: int|
                #![trigger names[j]]
                from <= j < k ==> names[j] != name,
            None => forall|j: int| #![trigger names[j]] from <= j < names.len() ==> names[j] != name,
        },
    decreases names.len() - from,
{
    if from < names.len() && names[from as int] != name {
        lemma_name_at(names, name, from + 1);
    }
}

/// On the page a node is selected at the end where it was not, and let go where it was; the others keep
/// their order.
pub proof fn a_page_selection_keeps_its_order(names: Seq<Seq<char>>, name: Seq<char>, k: int)
    requires
        names.no_duplicates(),
    ensures
        !names.contains(name) ==> select_toggled(names, name) == names.push(name),
        0 <= k < names.len() && names[k] == name ==> select_toggled(names, name) == names.take(k)
            + names.skip(k + 1),
        names.contains(name) ==> !select_toggled(names, name).contains(name),
{
    lemma_name_at(names, name, 0);
    match name_at(names, name, 0) {
        Some(x) => {
            assert(names[x as int] == name);
            let z = select_toggled(names, name);
            assert(z =~= names.take(x as int) + names.skip(x as int + 1));
            if z.contains(name) {
                let i = choose|i: int| 0 <= i < z.len() && z[i] == name;
                if i < x {
                    assert(names[i] == name);
                } else {
                    assert(names[i + 1] == name);
                }
            }
        },
        None => {
            if names.contains(name) {
                let i = choose|i: int| 0 <= i < names.len() && names[i] == name;
                assert(names[i] != name);
            }
        },
    }
}

/// The names sort by their bytes: at the first byte that differs by that byte, and a beginning before
/// what it begins.
pub proof fn names_sort_by_their_bytes(a: Seq<char>, b: Seq<char>, k: int)
    requires
        0 <= k <= encode_utf8(a).len(),
        k <= encode_utf8(b).len(),
        encode_utf8(a).take(k) == encode_utf8(b).take(k),
    ensures
        k == encode_utf8(a).len() && k < encode_utf8(b).len() ==> sorts_before(a, b),
        k == encode_utf8(b).len() ==> !sorts_before(a, b),
        k < encode_utf8(a).len() && k < encode_utf8(b).len() && encode_utf8(a)[k] != encode_utf8(b)[k]
            ==> (sorts_before(a, b) <==> encode_utf8(a)[k] < encode_utf8(b)[k]),
{
    lemma_earlier(encode_utf8(a), encode_utf8(b), k);
}

proof fn lemma_earlier(a: Seq<u8>, b: Seq<u8>, k: int)
    requires
        0 <= k <= a.len(),
        k <= b.len(),
        a.take(k) == b.take(k),
    ensures
        k == a.len() && k < b.len() ==> earlier(a, b),
        k == b.len() ==> !earlier(a, b),
        k < a.len() && k < b.len() && a[k] != b[k] ==> (earlier(a, b) <==> a[k] < b[k]),
    decreases k,
{
    if k > 0 {
        let x = a.drop_first();
        let y = b.drop_first();
        assert(a[0] == b[0]) by {
            assert(a.take(k)[0] == a[0]);
            assert(b.take(k)[0] == b[0]);
        }
        assert(x.take(k - 1) =~= a.take(k).skip(1));
        assert(y.take(k - 1) =~= b.take(k).skip(1));
        lemma_earlier(x, y, k - 1);
        if k < a.len() {
            assert(x[k - 1] == a[k]);
        }
        if k < b.len() {
            assert(y[k - 1] == b[k]);
        }
    }
}

proof fn lemma_rewound_is(seen: Seq<(usize, bool)>, tick: usize)
    requires
        square(seen),
    ensures
        exists|k: int|
            {
                &&& 0 <= k <= seen.len()
                &&& rewound(seen, tick) == #[trigger] seen.take(k)
                &&& forall|j: int| #![trigger seen[j]] 0 <= j < k ==> seen[j].0 < tick
                &&& forall|j: int| #![trigger seen[j]] k <= j < seen.len() ==> seen[j].0 >= tick
            },
    decreases seen.len(),
{
    if seen.len() > 0 && seen.last().0 >= tick {
        let d = seen.drop_last();
        assert(square(d)) by {
            assert forall|i: int| #![trigger d[i]] 0 < i < d.len() implies d[i - 1].0 < d[i].0
                && d[i - 1].1 != d[i].1 by {
                assert(seen[i] == d[i]);
            }
        }
        lemma_rewound_is(d, tick);
        let k = choose|k: int|
            {
                &&& 0 <= k <= d.len()
                &&& rewound(d, tick) == #[trigger] d.take(k)
                &&& forall|j: int| #![trigger d[j]] 0 <= j < k ==> d[j].0 < tick
                &&& forall|j: int| #![trigger d[j]] k <= j < d.len() ==> d[j].0 >= tick
            };
        assert(d.take(k) =~= seen.take(k));
        assert forall|j: int| #![trigger seen[j]] 0 <= j < d.len() implies seen[j] == d[j] by {}
        assert(rewound(seen, tick) == seen.take(k));
    } else {
        assert(seen.take(seen.len() as int) =~= seen);
        if seen.len() > 0 {
            assert forall|j: int| #![trigger seen[j]] 0 <= j < seen.len() implies seen[j].0 < tick by {
                lemma_ascends(seen, j);
            }
        }
    }
}

proof fn lemma_ascends(seen: Seq<(usize, bool)>, j: int)
    requires
        square(seen),
        0 <= j < seen.len(),
    ensures
        seen[j].0 <= seen.last().0,
    decreases seen.len() - j,
{
    if j + 1 < seen.len() {
        lemma_ascends(seen, j + 1);
        assert(seen[j + 1 - 1].0 < seen[j + 1].0);
    }
}

/// A frame that shows a gate leaves the track as it was before the frame's tick, with that gate's state on
/// that tick added where it differs from the last one kept; one that does not show it only takes back.
pub proof fn a_track_is_kept_up_to_the_frame(seen: Seq<(usize, bool)>, gate: Seq<char>, f: FrameView)
    requires
        square(seen),
        f.tick <= usize::MAX,
    ensures
        exists|k: int|
            {
                let past = #[trigger] seen.take(k);
                let z = brought_up(seen, gate, f);
                &&& 0 <= k <= seen.len()
                &&& forall|j: int| #![trigger seen[j]] 0 <= j < k ==> seen[j].0 < f.tick
                &&& forall|j: int| #![trigger seen[j]] k <= j < seen.len() ==> seen[j].0 >= f.tick
                &&& (forall|x: int|
                    #![trigger f.activations[x]]
                    0 <= x < f.activations.len() ==> f.activations[x].node != gate) ==> z == past
                &&& forall|x: int|
                    #![trigger f.activations[x]]
                    0 <= x < f.activations.len() && f.activations[x].node == gate && (forall|y: int|
                        #![trigger f.activations[y]]
                        0 <= y < x ==> f.activations[y].node != gate) ==> {
                        let open = f.activations[x].vals is Some && weighs(
                            f.activations[x].vals->Some_0[0],
                        );
                        &&& past.len() > 0 && past.last().1 == open ==> z == past
                        &&& past.len() == 0 || past.last().1 != open ==> z == past.push(
                            (f.tick as usize, open),
                        )
                    }
            },
{
    let tick = f.tick as usize;
    lemma_rewound_is(seen, tick);
    let k = choose|k: int|
        {
            &&& 0 <= k <= seen.len()
            &&& rewound(seen, tick) == #[trigger] seen.take(k)
            &&& forall|j: int| #![trigger seen[j]] 0 <= j < k ==> seen[j].0 < tick
            &&& forall|j: int| #![trigger seen[j]] k <= j < seen.len() ==> seen[j].0 >= tick
        };
    let past = seen.take(k);
    lemma_first_act(f.activations, gate, 0);
    assert forall|x: int|
        #![trigger f.activations[x]]
        0 <= x < f.activations.len() && f.activations[x].node == gate && (forall|y: int|
            #![trigger f.activations[y]]
            0 <= y < x ==> f.activations[y].node != gate) implies {
        let open = f.activations[x].vals is Some && weighs(f.activations[x].vals->Some_0[0]);
        let z = brought_up(seen, gate, f);
        &&& past.len() > 0 && past.last().1 == open ==> z == past
        &&& past.len() == 0 || past.last().1 != open ==> z == past.push((tick, open))
    } by {
        crate::drawing::a_gate_opens_on_a_number(f.activations[x].vals);
        let a = first_act(f.activations, gate, 0)->Some_0 as int;
        if a < x {
            assert(f.activations[a].node != gate);
        }
        if x < a {
            assert(f.activations[x].node != gate);
        }
    }
    if forall|x: int|
        #![trigger f.activations[x]]
        0 <= x < f.activations.len() ==> f.activations[x].node != gate {
        if first_act(f.activations, gate, 0) is Some {
            assert(f.activations[first_act(f.activations, gate, 0)->Some_0 as int].node != gate);
        }
    }
}

proof fn lemma_first_act(acts: Seq<ActivationView>, node: Seq<char>, from: nat)
    ensures
        match first_act(acts, node, from) {
            Some(k) => from <= k < acts.len() && acts[k as int].node == node && forall|j: int|
                #![trigger acts[j]]
                from <= j < k ==> acts[j].node != node,
            None => forall|j: int| #![trigger acts[j]] from <= j < acts.len() ==> acts[j].node != node,
        },
    decreases acts.len() - from,
{
    if from < acts.len() && acts[from as int].node != node {
        lemma_first_act(acts, node, from + 1);
    }
}

proof fn lemma_track_at(h: Seq<TrackView>, gate: Seq<char>, from: nat)
    ensures
        match track_at(h, gate, from) {
            Some(k) => from <= k < h.len() && h[k as int].gate == gate && forall|j: int|
                #![trigger h[j]]
                from <= j < k ==> h[j].gate != gate,
            None => forall|j: int| #![trigger h[j]] from <= j < h.len() ==> h[j].gate != gate,
        },
    decreases h.len() - from,
{
    if from < h.len() && h[from as int].gate != gate {
        lemma_track_at(h, gate, from + 1);
    }
}

/// What the history holds of a gate, by the first track of that name.
pub open spec fn is_kept_as(h: Seq<TrackView>, gate: Seq<char>, seen: Seq<(usize, bool)>) -> bool {
    exists|k: int|
        #![trigger h[k]]
        {
            &&& 0 <= k < h.len()
            &&& h[k].gate == gate
            &&& h[k].seen == seen
            &&& forall|j: int| #![trigger h[j]] 0 <= j < k ==> h[j].gate != gate
        }
}

/// The history holds nothing of that gate.
pub open spec fn is_unseen(h: Seq<TrackView>, gate: Seq<char>) -> bool {
    forall|k: int| #![trigger h[k]] 0 <= k < h.len() ==> h[k].gate != gate
}

/// Bringing one gate up changes its track alone, from nothing where there was none.
pub proof fn one_gate_changes_its_own_track(
    h: Seq<TrackView>,
    gate: Seq<char>,
    f: FrameView,
    other: Seq<char>,
    seen: Seq<(usize, bool)>,
)
    ensures
        is_kept_as(h, gate, seen) ==> is_kept_as(
            with_gate(h, gate, f),
            gate,
            brought_up(seen, gate, f),
        ),
        is_unseen(h, gate) ==> is_kept_as(
            with_gate(h, gate, f),
            gate,
            brought_up(Seq::empty(), gate, f),
        ),
        other != gate && is_kept_as(h, other, seen) ==> is_kept_as(with_gate(h, gate, f), other, seen),
        other != gate && is_unseen(h, other) ==> is_unseen(with_gate(h, gate, f), other),
{
    lemma_track_at(h, gate, 0);
    let z = with_gate(h, gate, f);
    let at = match track_at(h, gate, 0) {
        Some(k) => k as int,
        None => h.len() as int,
    };
    assert(z[at].gate == gate);
    assert forall|j: int| #![trigger z[j]] 0 <= j < z.len() && j != at implies z[j] == h[j] by {}
    if is_kept_as(h, gate, seen) {
        let k = choose|k: int|
            #![trigger h[k]]
            {
                &&& 0 <= k < h.len()
                &&& h[k].gate == gate
                &&& h[k].seen == seen
                &&& forall|j: int| #![trigger h[j]] 0 <= j < k ==> h[j].gate != gate
            };
        if at < k {
            assert(h[at].gate != gate);
        }
        assert(h[k].gate == gate);
        assert(at == k);
        assert(z[at].seen == brought_up(seen, gate, f));
    }
    if is_unseen(h, gate) {
        if at < h.len() {
            assert(h[at].gate != gate);
        }
        assert(z[at].seen == brought_up(Seq::empty(), gate, f));
    }
    if other != gate && is_kept_as(h, other, seen) {
        let k = choose|k: int|
            #![trigger h[k]]
            {
                &&& 0 <= k < h.len()
                &&& h[k].gate == other
                &&& h[k].seen == seen
                &&& forall|j: int| #![trigger h[j]] 0 <= j < k ==> h[j].gate != other
            };
        assert(k != at);
        assert(z[k] == h[k]);
        assert forall|j: int| #![trigger z[j]] 0 <= j < k implies z[j].gate != other by {
            assert(h[j].gate != other);
        }
    }
}

proof fn lemma_gates_up(
    h: Seq<TrackView>,
    gates: Seq<Seq<char>>,
    n: nat,
    f: FrameView,
    gate: Seq<char>,
    seen: Seq<(usize, bool)>,
)
    requires
        n <= gates.len(),
        gates.no_duplicates(),
    ensures
        gates.take(n as int).contains(gate) && is_kept_as(h, gate, seen) ==> is_kept_as(
            with_gates(h, gates, n, f),
            gate,
            brought_up(seen, gate, f),
        ),
        gates.take(n as int).contains(gate) && is_unseen(h, gate) ==> is_kept_as(
            with_gates(h, gates, n, f),
            gate,
            brought_up(Seq::empty(), gate, f),
        ),
        !gates.take(n as int).contains(gate) && is_kept_as(h, gate, seen) ==> is_kept_as(
            with_gates(h, gates, n, f),
            gate,
            seen,
        ),
        !gates.take(n as int).contains(gate) && is_unseen(h, gate) ==> is_unseen(
            with_gates(h, gates, n, f),
            gate,
        ),
    decreases n,
{
    if n == 0 {
        assert(gates.take(0).len() == 0);
    } else {
        let m = (n - 1) as nat;
        lemma_gates_up(h, gates, m, f, gate, seen);
        let mid = with_gates(h, gates, m, f);
        let g = gates[n - 1];
        let a = gates.take(m as int);
        let b = gates.take(n as int);
        assert(b =~= a.push(g));
        assert(!a.contains(g)) by {
            if a.contains(g) {
                let i = choose|i: int| 0 <= i < a.len() && a[i] == g;
                assert(gates[i] == g);
            }
        }
        assert(b.contains(gate) <==> a.contains(gate) || gate == g) by {
            if b.contains(gate) {
                let i = choose|i: int| 0 <= i < b.len() && b[i] == gate;
                if i < a.len() {
                    assert(a[i] == gate);
                }
            }
            if a.contains(gate) {
                let i = choose|i: int| 0 <= i < a.len() && a[i] == gate;
                assert(b[i] == gate);
            }
            assert(b[n - 1] == g);
        }
        one_gate_changes_its_own_track(mid, g, f, gate, seen);
        one_gate_changes_its_own_track(mid, g, f, gate, brought_up(seen, gate, f));
        one_gate_changes_its_own_track(mid, g, f, gate, brought_up(Seq::empty(), gate, f));
    }
}

/// A frame brings the track of each of the page's gates up once, begun where there was none, and leaves
/// every other track alone.
pub proof fn a_frame_brings_every_gate_up(
    p: PageView,
    f: FrameView,
    gate: Seq<char>,
    seen: Seq<(usize, bool)>,
)
    requires
        p.gates.no_duplicates(),
    ensures
        ({
            let z = p.applied(AnswerView::Frame(f)).hist;
            &&& p.gates.contains(gate) && is_kept_as(p.hist, gate, seen) ==> is_kept_as(
                z,
                gate,
                brought_up(seen, gate, f),
            )
            &&& p.gates.contains(gate) && is_unseen(p.hist, gate) ==> is_kept_as(
                z,
                gate,
                brought_up(Seq::empty(), gate, f),
            )
            &&& !p.gates.contains(gate) && is_kept_as(p.hist, gate, seen) ==> is_kept_as(
                z,
                gate,
                seen,
            )
            &&& !p.gates.contains(gate) && is_unseen(p.hist, gate) ==> is_unseen(z, gate)
        }),
{
    assert(p.gates.take(p.gates.len() as int) =~= p.gates);
    lemma_gates_up(p.hist, p.gates, p.gates.len(), f, gate, seen);
}

/// A wave turns at each change: it comes in on the old state and goes out on the new one.
pub proof fn a_wave_turns_at_each_change(seen: Seq<(usize, bool)>, i: int)
    requires
        0 <= i < seen.len(),
    ensures
        corners(seen).len() == 2 * seen.len() - 1,
        corners(seen)[2 * i] == seen[i],
        i > 0 ==> corners(seen)[2 * i - 1] == (seen[i].0, seen[i - 1].1),
    decreases seen.len(),
{
    let d = seen.drop_last();
    if d.len() > 0 {
        if i < d.len() {
            a_wave_turns_at_each_change(d, i);
            assert(d[i] == seen[i]);
            if i > 0 {
                assert(d[i - 1] == seen[i - 1]);
            }
        } else {
            a_wave_turns_at_each_change(d, 0);
            assert(d.last() == seen[i - 1]);
        }
    } else {
        assert(corners(d).len() == 0);
    }
}

/// What a frame shows of the gates can be read exactly where no gate's first activation comes with an
/// empty list of values.
pub proof fn a_gate_is_read_where_it_has_a_value(f: FrameView, gates: Seq<Seq<char>>, n: int, x: int)
    ensures
        readable(f, gates) && 0 <= n < gates.len() && 0 <= x < f.activations.len()
            && f.activations[x].node == gates[n] && (forall|y: int|
            #![trigger f.activations[y]]
            0 <= y < x ==> f.activations[y].node != gates[n]) ==> (f.activations[x].vals is Some
            ==> f.activations[x].vals->Some_0.len() > 0),
        (forall|y: int|
            #![trigger f.activations[y]]
            0 <= y < f.activations.len() ==> (f.activations[y].vals is Some
                ==> f.activations[y].vals->Some_0.len() > 0)) ==> readable(f, gates),
{
    if 0 <= n < gates.len() && 0 <= x < f.activations.len() && readable(f, gates)
        && f.activations[x].node == gates[n] && (forall|y: int|
        #![trigger f.activations[y]]
        0 <= y < x ==> f.activations[y].node != gates[n]) {
        lemma_first_act(f.activations, gates[n], 0);
        assert(readable_gate(f, gates[n]));
        let a = first_act(f.activations, gates[n], 0)->Some_0 as int;
        assert(f.activations[x].node == gates[n]);
        if a < x {
            assert(f.activations[a].node != gates[n]);
        }
    }
    if forall|y: int|
        #![trigger f.activations[y]]
        0 <= y < f.activations.len() ==> (f.activations[y].vals is Some
            ==> f.activations[y].vals->Some_0.len() > 0) {
        assert forall|m: int| #![trigger gates[m]] 0 <= m < gates.len() implies readable_gate(
            f,
            gates[m],
        ) by {
            lemma_first_act(f.activations, gates[m], 0);
        }
    }
}

} // verus!
