//! The laws of replay by running again, and of the names nodes are shown under.
use vstd::prelude::*;

use crate::acts::Report;
use crate::api_types::{ActivationView, FidelityView, PlotView, PointView, SeriesView};
use crate::charting::starts_bucket;
use crate::model::bucket;
use crate::names::{
    alphanumeric, colons, glyph, glyphs, letters, lowercase, module, segment, shown_name, trimmed,
    wordy, Glyph,
};
use crate::reporting::{shows_numbers, slots_hold_what_can_be_shown};
use crate::session::{
    balanced, baseline, changed, collected, cut, depth, fired_as, last_segment, sampled, separates,
    shape_of, FiredView, SamplerView, SessionView,
};

verus! {

/// A step consumes that many events, or as many as there are: all but the last of them are ticked
/// unobserved, on the graph as it stands, and what is shown then is what the last one showed. A step of
/// none shows what was shown before.
pub proof fn a_step_consumes_so_many_events(s: SessionView, n: nat, seen: Seq<ActivationView>)
    requires
        s.ok(),
        s.times.len() <= usize::MAX,
    ensures
        ({
            let p = s.step_plan(n);
            let z = s.carried_out(p, seen);
            let to = if s.cursor + n < s.times.len() {
                s.cursor + n
            } else {
                s.times.len()
            };
            &&& !p.reset
            &&& p.from == s.cursor
            &&& z.cursor == to
            &&& z.times == s.times
            &&& to == s.cursor ==> p.observed is None && p.quiet == p.from && z.last == s.last
            &&& to > s.cursor ==> p.observed == Some((to - 1) as usize) && p.quiet == to - 1 && z.last
                == seen
        }),
{
}

/// A seek consumes the events up to the tick asked for, or all there are. One that goes back starts over
/// on a graph made afresh; one that goes nowhere ticks nothing.
pub proof fn a_seek_goes_where_asked(s: SessionView, tick: nat, seen: Seq<ActivationView>)
    requires
        s.ok(),
        s.times.len() <= usize::MAX,
    ensures
        ({
            let p = s.seek_plan(tick);
            let z = s.carried_out(p, seen);
            let to = if tick < s.times.len() {
                tick
            } else {
                s.times.len()
            };
            &&& p.reset <==> tick < s.cursor
            &&& p.from == if tick < s.cursor {
                0
            } else {
                s.cursor
            }
            &&& z.cursor == to
            &&& z.times == s.times
            &&& to == p.from ==> p.observed is None && p.quiet == p.from
            &&& to > p.from ==> p.observed == Some((to - 1) as usize) && p.quiet == to - 1 && z.last
                == seen
            &&& to == 0 && tick < s.cursor ==> z.last.len() == 0
            &&& tick == s.cursor ==> z == s
        }),
{
}

/// A session's frame is its position, the number of events, the time of the last one consumed and what
/// that one showed.
pub proof fn a_session_frame_tells_where_it_stands(s: SessionView)
    requires
        s.ok(),
    ensures
        s.frame_view().tick == s.cursor,
        s.frame_view().total == s.times.len(),
        s.cursor == 0 ==> s.frame_view().ts_ns == 0,
        s.cursor > 0 ==> s.frame_view().ts_ns == s.times[s.cursor - 1],
        s.frame_view().activations == s.last,
{
}

/// A search by name stops on a tick exactly where a node of that name fired on it.
pub proof fn a_session_search_stops_on_a_fire(last: Seq<ActivationView>, node: Seq<char>, k: int)
    ensures
        0 <= k < last.len() && last[k].node == node && last[k].fired ==> fired_as(last, node),
        fired_as(last, node) ==> exists|j: int|
            #![trigger last[j]]
            0 <= j < last.len() && last[j].node == node && last[j].fired,
{
    if 0 <= k < last.len() && last[k].node == node && last[k].fired {
        assert(last[k].fired && last[k].node == node);
    }
}

/// The node was shown as `out` in `was`, by the newest activation of that name.
pub open spec fn was_shown(was: Seq<ActivationView>, node: Seq<char>, out: Seq<char>) -> bool {
    exists|j: int|
        #![trigger was[j]]
        {
            &&& 0 <= j < was.len()
            &&& was[j].node == node
            &&& was[j].out == out
            &&& forall|x: int| #![trigger was[x]] j < x < was.len() ==> was[x].node != node
        }
}

proof fn lemma_baseline(
    was: Seq<ActivationView>,
    nodes: Seq<Seq<char>>,
    node: Seq<char>,
    n: nat,
)
    requires
        nodes.contains(node),
        n <= was.len(),
    ensures
        match baseline(was, nodes, node, n) {
            Some(out) => exists|j: int|
                #![trigger was[j]]
                {
                    &&& 0 <= j < n
                    &&& was[j].node == node
                    &&& was[j].out == out
                    &&& forall|x: int| #![trigger was[x]] j < x < n ==> was[x].node != node
                },
            None => forall|x: int| #![trigger was[x]] 0 <= x < n ==> was[x].node != node,
        },
    decreases n,
{
    if n > 0 {
        if was[n - 1].node == node {
            assert(was[n - 1].out == baseline(was, nodes, node, n)->Some_0);
        } else {
            lemma_baseline(was, nodes, node, (n - 1) as nat);
            match baseline(was, nodes, node, n) {
                Some(out) => {
                    let j = choose|j: int|
                        #![trigger was[j]]
                        {
                            &&& 0 <= j < n - 1
                            &&& was[j].node == node
                            &&& was[j].out == out
                            &&& forall|x: int| #![trigger was[x]] j < x < n - 1 ==> was[x].node != node
                        };
                    assert(was[j].node == node);
                },
                None => {},
            }
        }
    }
}

/// A search for a change stops on a tick exactly where one of the nodes asked for fired on it with
/// another rendering than it was shown with before, or was not shown before at all.
pub proof fn a_session_search_stops_on_a_change(
    was: Seq<ActivationView>,
    now: Seq<ActivationView>,
    nodes: Seq<Seq<char>>,
)
    ensures
        changed(was, now, nodes) <==> exists|k: int|
            #![trigger now[k]]
            {
                &&& 0 <= k < now.len()
                &&& now[k].fired
                &&& nodes.contains(now[k].node)
                &&& !was_shown(was, now[k].node, now[k].out)
            },
{
    assert forall|k: int| #![trigger now[k]] 0 <= k < now.len() && nodes.contains(now[k].node) implies (
    baseline(was, nodes, now[k].node, was.len()) == Some(now[k].out) <==> was_shown(
        was,
        now[k].node,
        now[k].out,
    )) by {
        lemma_baseline(was, nodes, now[k].node, was.len());
        if was_shown(was, now[k].node, now[k].out) {
            let j = choose|j: int|
                #![trigger was[j]]
                {
                    &&& 0 <= j < was.len()
                    &&& was[j].node == now[k].node
                    &&& was[j].out == now[k].out
                    &&& forall|x: int| #![trigger was[x]] j < x < was.len() ==> was[x].node
                        != now[k].node
                };
            match baseline(was, nodes, now[k].node, was.len()) {
                Some(out) => {
                    let y = choose|y: int|
                        #![trigger was[y]]
                        {
                            &&& 0 <= y < was.len()
                            &&& was[y].node == now[k].node
                            &&& was[y].out == out
                            &&& forall|x: int| #![trigger was[x]] y < x < was.len() ==> was[x].node
                                != now[k].node
                        };
                    if y < j {
                        assert(was[j].node != now[k].node);
                    }
                    if j < y {
                        assert(was[y].node != now[k].node);
                    }
                },
                None => {
                    assert(was[j].node != now[k].node);
                },
            }
        }
    }
}

/// What is observed of a node is its report: under the last segments of its names, fired exactly if it
/// came with values, all of them shown, with its Jacobian and with both renderings.
pub proof fn an_observed_report_is_collected(
    node: Seq<char>,
    deps: Seq<Seq<char>>,
    gates: Seq<Seq<char>>,
    dims: Seq<usize>,
    f: Report<'_>,
    detail: Seq<char>,
)
    ensures
        ({
            let a = collected(node, deps, gates, dims, f, detail);
            &&& a.node == last_segment(node)
            &&& a.deps.len() == deps.len()
            &&& forall|k: int| #![trigger a.deps[k]] 0 <= k < deps.len() ==> a.deps[k] == last_segment(
                deps[k],
            )
            &&& a.gates.len() == gates.len()
            &&& forall|k: int|
                #![trigger a.gates[k]]
                0 <= k < gates.len() ==> a.gates[k] == last_segment(gates[k])
            &&& a.dims == dims
            &&& a.out == f.glance@
            &&& a.detail == detail
            &&& a.ran == f.ran
            &&& a.exact == f.exact
            &&& a.fired <==> f.vals is Some
            &&& a.vals is Some <==> f.vals is Some
            &&& a.vals matches Some(s) ==> s.len() == f.vals->Some_0@.len() && forall|k: int|
                #![trigger s[k]]
                0 <= k < s.len() ==> s[k] == Some(f.vals->Some_0@[k])
            &&& a.jac is Some <==> f.jac is Some
            &&& a.jac matches Some(s) ==> shows_numbers(s, f.jac->Some_0@)
            &&& a.exact_block is None
            &&& a.cost_ns is None
        }),
{
    if f.jac is Some {
        slots_hold_what_can_be_shown(f.jac->Some_0@, 0);
    }
}

/// One observed tick shows the graph: a node for each activation that has plots told for it, in order,
/// with its names and its shape, exact and not yet costed.
pub proof fn an_observed_tick_is_the_graph(
    acts: Seq<ActivationView>,
    plots: Seq<Seq<PlotView>>,
    i: int,
)
    requires
        0 <= i < acts.len(),
        i < plots.len(),
    ensures
        acts.len() <= plots.len() ==> shape_of(acts, plots).len() == acts.len(),
        plots.len() <= acts.len() ==> shape_of(acts, plots).len() == plots.len(),
        shape_of(acts, plots)[i].node == acts[i].node,
        shape_of(acts, plots)[i].deps == acts[i].deps,
        shape_of(acts, plots)[i].gates == acts[i].gates,
        shape_of(acts, plots)[i].dims == acts[i].dims,
        shape_of(acts, plots)[i].plots == plots[i],
        shape_of(acts, plots)[i].cost_ns is None,
        shape_of(acts, plots)[i].fidelity == FidelityView::Exact,
        shape_of(acts, plots)[i].deriv is None,
{
}

/// How many of the first `n` characters are `c`.
pub open spec fn count_of(s: Seq<char>, c: char, n: nat) -> nat
    decreases n,
{
    if n == 0 {
        0
    } else {
        count_of(s, c, (n - 1) as nat) + if s[n - 1] == c {
            1nat
        } else {
            0nat
        }
    }
}

/// A path separator stands at `i` with as many brackets closed before it as opened.
pub open spec fn parts_at(s: Seq<char>, i: int) -> bool {
    &&& 0 <= i
    &&& i + 1 < s.len()
    &&& s[i] == ':'
    &&& s[i + 1] == ':'
    &&& count_of(s, '<', i as nat) == count_of(s, '>', i as nat)
}

proof fn lemma_depth(s: Seq<char>, n: nat)
    ensures
        depth(s, n) == count_of(s, '<', n) - count_of(s, '>', n),
    decreases n,
{
    if n > 0 {
        lemma_depth(s, (n - 1) as nat);
    }
}

proof fn lemma_cut_at(s: Seq<char>, n: nat)
    requires
        n <= s.len(),
    ensures
        cut(s, n) <= s.len(),
        cut(s, n) == 0 || (cut(s, n) >= 2 && parts_at(s, cut(s, n) - 2)),
        forall|i: int| cut(s, n) - 1 <= i < n ==> !#[trigger] parts_at(s, i),
    decreases n,
{
    if n > 0 {
        let m = (n - 1) as nat;
        lemma_cut_at(s, m);
        lemma_depth(s, m);
        assert(separates(s, m) <==> parts_at(s, m as int));
    }
}

/// The last segment of a name is what follows its last separator outside all brackets, the whole name
/// where there is none; it is left as it stands.
pub proof fn the_last_segment_follows_the_last_separator(s: Seq<char>)
    ensures
        exists|at: int|
            {
                &&& 0 <= at <= s.len()
                &&& last_segment(s) == #[trigger] s.skip(at)
                &&& at == 0 || parts_at(s, at - 2)
                &&& forall|i: int| at - 1 <= i ==> !#[trigger] parts_at(s, i)
            },
        balanced(s) <==> forall|k: nat|
            k <= s.len() ==> #[trigger] count_of(s, '>', k) <= count_of(s, '<', k),
{
    lemma_cut_at(s, s.len());
    let at = cut(s, s.len()) as int;
    assert(last_segment(s) == s.skip(at));
    assert forall|k: nat| depth(s, k) == count_of(s, '<', k) - #[trigger] count_of(s, '>', k) by {
        lemma_depth(s, k);
    }
    assert forall|k: nat| #[trigger] depth(s, k) == count_of(s, '<', k) - count_of(s, '>', k) by {
        lemma_depth(s, k);
    }
}

/// A fire is sampled into its minute and touches no other: the point of that minute takes both its values
/// and its rendering, where there is none one is added at the end, and every other point stays.
pub proof fn a_fire_is_sampled_into_its_minute(points: Seq<PointView>, b: i64, f: FiredView, k: int)
    requires
        0 <= k < points.len(),
    ensures
        ({
            let z = sampled(points, b as int, f);
            let there = exists|j: int| #![trigger points[j]] 0 <= j < points.len() && points[j].ts_ms == b;
            &&& there ==> z.len() == points.len()
            &&& !there ==> z.len() == points.len() + 1 && z.last().ts_ms == b && z.last().vals == f.vals
                && z.last().detail == f.detail
            &&& points[k].ts_ms != b ==> z[k] == points[k]
            &&& points[k].ts_ms == b && (forall|j: int|
                #![trigger points[j]]
                k < j < points.len() ==> points[j].ts_ms != b) ==> z[k].ts_ms == b && z[k].vals
                == f.vals && z[k].detail == f.detail
        }),
{
    lemma_minute(points, b as int, points.len());
    match crate::session::minute_at(points, b as int, points.len()) {
        Some(m) => {
            assert(points[m as int].ts_ms == b);
            if points[k].ts_ms == b && m > k {
                assert(points[m as int].ts_ms == b);
            }
        },
        None => {
            assert(points[k].ts_ms != b);
        },
    }
}

proof fn lemma_minute(points: Seq<PointView>, b: int, n: nat)
    requires
        n <= points.len(),
    ensures
        match crate::session::minute_at(points, b, n) {
            Some(m) => m < n && points[m as int].ts_ms == b && forall|j: int|
                #![trigger points[j]]
                m < j < n ==> points[j].ts_ms != b,
            None => forall|j: int| #![trigger points[j]] 0 <= j < n ==> points[j].ts_ms != b,
        },
    decreases n,
{
    if n > 0 && points[n - 1].ts_ms != b {
        lemma_minute(points, b, (n - 1) as nat);
    }
}

/// A report is sampled on the series of its own place: the one whose turn it is, begun as it told of
/// itself where it is new, in the minute the tick is of; a quiet one adds no point and no other place is
/// touched.
pub proof fn a_report_is_sampled_in_its_place(
    s: SamplerView,
    fresh: SeriesView,
    fire: Option<FiredView>,
    j: int,
)
    requires
        s.idx <= s.nodes.len(),
    ensures
        ({
            let z = s.reported(fresh, fire);
            let at = s.idx as int;
            let was = if at < s.nodes.len() {
                s.nodes[at]
            } else {
                fresh
            };
            &&& z.idx == s.idx + 1
            &&& z.ts_ns == s.ts_ns
            &&& z.nodes.len() == if at < s.nodes.len() {
                s.nodes.len()
            } else {
                s.nodes.len() + 1
            }
            &&& 0 <= j < s.nodes.len() && j != at ==> z.nodes[j] == s.nodes[j]
            &&& z.nodes[at] == (SeriesView { points: z.nodes[at].points, ..was })
            &&& fire is None ==> z.nodes[at] == was
            &&& fire matches Some(f) ==> exists|b: int|
                #[trigger] starts_bucket(b, s.ts_ns, 60_000) && i64::MIN <= b <= i64::MAX
                    && z.nodes[at].points == sampled(was.points, b, f)
        }),
{
    crate::charting::lemma_starts_bucket(s.ts_ns, 60_000);
    let b = bucket(s.ts_ns, 60_000);
    assert(starts_bucket(b, s.ts_ns, 60_000));
}

/// Every character belongs to a path segment and none is a colon.
pub open spec fn is_word(s: Seq<char>) -> bool {
    forall|i: int| #![trigger s[i]] 0 <= i < s.len() ==> (alphanumeric(s[i]) || s[i] == '_') && s[i]
        != ':'
}

proof fn lemma_segment_of_word(g: Seq<Glyph>, w: int)
    requires
        0 <= w <= g.len(),
        forall|i: int| #![trigger g[i]] 0 <= i < w ==> wordy(g[i]) && g[i].c != ':',
        w < g.len() ==> colons(g.skip(w)) || !wordy(g[w]),
    ensures
        segment(g) == w,
    decreases w,
{
    if w == 0 {
        assert(g.skip(0) =~= g);
    } else {
        assert(wordy(g[0]));
        let d = g.drop_first();
        assert forall|i: int| #![trigger d[i]] 0 <= i < w - 1 implies wordy(d[i]) && d[i].c != ':' by {
            assert(d[i] == g[i + 1]);
        }
        assert(d.skip(w - 1) =~= g.skip(w));
        lemma_segment_of_word(d, w - 1);
    }
}

/// A word is shown as it stands.
pub proof fn a_word_is_shown_whole(word: Seq<char>)
    requires
        is_word(word),
    ensures
        shown_name(word) == word,
{
    let g = glyphs(word);
    assert forall|i: int| #![trigger g[i]] 0 <= i < g.len() implies wordy(g[i]) && g[i].c != ':' by {
        assert(word[i] != ':');
    }
    lemma_segment_of_word(g, g.len() as int);
    assert(letters(g) =~= word);
}

/// A path reads past its modules and keeps its types: a word before a separator is left out with it where
/// it starts lowercase, and stays where it does not, and what follows is read the same way.
pub proof fn a_path_loses_its_modules(word: Seq<char>, rest: Seq<char>)
    requires
        is_word(word),
    ensures
        word.len() > 0 && lowercase(word[0]) ==> shown_name(word + "::"@ + rest) == shown_name(rest),
        word.len() == 0 || !lowercase(word[0]) ==> shown_name(word + "::"@ + rest) == word + "::"@
            + shown_name(rest),
{
    reveal_strlit("::");
    let s = word + "::"@ + rest;
    let g = glyphs(s);
    let w = word.len() as int;
    assert forall|i: int| #![trigger g[i]] 0 <= i < w implies wordy(g[i]) && g[i].c != ':' by {
        assert(s[i] == word[i]);
    }
    assert(s[w] == ':' && s[w + 1] == ':');
    assert(g.skip(w)[0] == g[w] && g.skip(w)[1] == g[w + 1]);
    assert(colons(g.skip(w)));
    lemma_segment_of_word(g, w);
    assert(g.skip(w + 2) =~= glyphs(rest)) by {
        assert forall|i: int| 0 <= i < rest.len() implies g.skip(w + 2)[i] == glyphs(rest)[i] by {
            assert(s[w + 2 + i] == rest[i]);
        }
    }
    let seg = g.take(w);
    if w > 0 {
        assert(seg[0] == glyph(word[0])) by {
            assert(s[0] == word[0]);
        }
    }
    let tail = trimmed(glyphs(rest));
    if module(seg) {
        assert(trimmed(g) == Seq::<Glyph>::empty() + tail);
        assert(trimmed(g) =~= tail);
    } else {
        assert(trimmed(g) == g.take(w + 2) + tail);
        assert(letters(trimmed(g)) =~= word + "::"@ + letters(tail)) by {
            assert forall|i: int| 0 <= i < w + 2 implies g.take(w + 2)[i].c == (word + "::"@)[i] by {
                assert(s[i] == (word + "::"@)[i]);
            }
        }
    }
}

/// Anything else between words is shown as it stands, and what follows is read the same way, at every
/// depth of brackets.
pub proof fn a_mark_is_shown_as_it_stands(word: Seq<char>, c: char, rest: Seq<char>)
    requires
        is_word(word),
        !alphanumeric(c) && c != '_',
        !(c == ':' && rest.len() > 0 && rest[0] == ':'),
    ensures
        shown_name(word.push(c) + rest) == word.push(c) + shown_name(rest),
{
    let s = word.push(c) + rest;
    let g = glyphs(s);
    let w = word.len() as int;
    assert forall|i: int| #![trigger g[i]] 0 <= i < w implies wordy(g[i]) && g[i].c != ':' by {
        assert(s[i] == word[i]);
    }
    assert(s[w] == c);
    assert(!wordy(g[w]));
    if g.skip(w).len() >= 2 {
        assert(s[w + 1] == rest[0]);
        assert(g.skip(w)[1].c == rest[0]);
    }
    assert(g.skip(w)[0].c == c);
    assert(!colons(g.skip(w)));
    lemma_segment_of_word(g, w);
    assert(g.skip(w + 1) =~= glyphs(rest)) by {
        assert forall|i: int| 0 <= i < rest.len() implies g.skip(w + 1)[i] == glyphs(rest)[i] by {
            assert(s[w + 1 + i] == rest[i]);
        }
    }
    let tail = trimmed(glyphs(rest));
    assert(trimmed(g) == g.take(w + 1) + tail);
    assert(letters(trimmed(g)) =~= word.push(c) + letters(tail)) by {
        assert forall|i: int| 0 <= i < w + 1 implies g.take(w + 1)[i].c == word.push(c)[i] by {
            assert(s[i] == word.push(c)[i]);
        }
    }
}

} // verus!
