//! The front-end's controls: what each of them does to the shared state, and which op it asks for.
//!
//! A tape may still be being written, so an op can name a tick that has not been recorded yet. The
//! tape says so rather than blocking, and the control that outran the feed is shown waiting while it
//! issues its op again.
use ahash::{AHashMap, AHashSet};
use vstd::prelude::*;

use crate::api_types::{ActivationFrame, FrameView, TopoNode, TopoView};
use crate::frames::{frames_match, same_frame};
use crate::maps::{
    drop_flags, flag, flags_in, flags_of, has_name, insert_name, lacks_flags, list_names, names_of,
    no_flags, no_names, read_flags, remove_name, set_flag, unflagged, write_flags,
};
use crate::model::TapeView;
use crate::ops::{a_sealed_tape_answers_every_op, op_answer, Op, OpView};
use crate::text::{same, starts_with};

verus! {

/// The slowest free run.
pub const SLOWEST: usize = 1;

/// The fastest free run.
pub const FASTEST: usize = 65536;

/// The speed a page starts at, in ticks per poll.
pub const CRUISE: usize = 512;

/// The controls' shared state.
pub struct Controls {
    pub frame: Option<ActivationFrame>,
    pub playing: bool,
    /// The cursor rides the tape's growing end; any explicit op parks it.
    pub follow: bool,
    /// Ticks per free-run poll.
    pub speed: usize,
    pub error: Option<String>,
    /// The nodes whose next change is searched for.
    pub selected: AHashSet<String>,
    /// The control whose op outran the recording and is issuing itself again.
    pub waiting: Option<String>,
    /// Explicit chart-visibility choices by node; absent means the node's own default.
    pub views: AHashMap<String, bool>,
    /// The node under the pointer, with its own default.
    pub hovered: Option<(String, bool)>,
    /// Bumped by each op that may be issued again, so a newer one supersedes an older one.
    pub generation: u64,
    /// Free-run polls so far.
    pub polls: u32,
}

/// What the controls' shared state is.
#[verifier::ext_equal]
pub struct ControlsView {
    pub frame: Option<FrameView>,
    pub playing: bool,
    pub follow: bool,
    pub speed: nat,
    pub error: Option<Seq<char>>,
    pub selected: Set<Seq<char>>,
    pub waiting: Option<Seq<char>>,
    pub views: Map<Seq<char>, bool>,
    pub hovered: Option<(Seq<char>, bool)>,
    pub generation: nat,
    pub polls: nat,
}

impl View for Controls {
    type V = ControlsView;

    open spec fn view(&self) -> ControlsView {
        ControlsView {
            frame: self.frame.deep_view(),
            playing: self.playing,
            follow: self.follow,
            speed: self.speed as nat,
            error: self.error.deep_view(),
            selected: names_of(self.selected),
            waiting: self.waiting.deep_view(),
            views: flags_of(self.views),
            hovered: match self.hovered {
                Some((n, b)) => Some((n@, b)),
                None => None,
            },
            generation: self.generation as nat,
            polls: self.polls as nat,
        }
    }
}

/// What an answered op comes to.
#[derive(Clone, Copy, Debug, PartialEq, Eq)]
pub enum Landing {
    /// A newer op owns the cursor: nothing was applied.
    Superseded,
    /// The tape does not hold it yet: issue the op again.
    Again,
    /// The op is answered.
    Done,
}

/// What one free-run poll does.
#[derive(Clone, Copy, Debug, PartialEq, Eq)]
pub struct Poll {
    /// Step that many ticks.
    pub step: Option<usize>,
    /// Fetch the chart payload again.
    pub refetch: bool,
}

/// What a key asks for.
pub enum Action {
    /// Step one tick.
    StepOne,
    /// Play or pause.
    TogglePlay,
    /// Halve the speed.
    Slower,
    /// Double the speed.
    Faster,
    /// Go to the start.
    Start,
    /// Search for a node's next fire.
    Until(String),
    /// Search for the next change in the selected nodes.
    UntilChange,
    /// Ride the tape's end.
    Follow,
    /// Show or hide the node under the pointer.
    ToggleView,
    /// Forget every choice of what is shown.
    ClearViews,
    /// Nothing.
    Ignore,
}

/// What a key asks for.
#[verifier::ext_equal]
pub enum ActionView {
    StepOne,
    TogglePlay,
    Slower,
    Faster,
    Start,
    Until(Seq<char>),
    UntilChange,
    Follow,
    ToggleView,
    ClearViews,
    Ignore,
}

impl View for Action {
    type V = ActionView;

    open spec fn view(&self) -> ActionView {
        match *self {
            Action::StepOne => ActionView::StepOne,
            Action::TogglePlay => ActionView::TogglePlay,
            Action::Slower => ActionView::Slower,
            Action::Faster => ActionView::Faster,
            Action::Start => ActionView::Start,
            Action::Until(n) => ActionView::Until(n@),
            Action::UntilChange => ActionView::UntilChange,
            Action::Follow => ActionView::Follow,
            Action::ToggleView => ActionView::ToggleView,
            Action::ClearViews => ActionView::ClearViews,
            Action::Ignore => ActionView::Ignore,
        }
    }
}

/// The action a key stands for; the bar key needs a bar node.
pub open spec fn key_action(key: Seq<char>, bar: Option<Seq<char>>) -> ActionView {
    if key == " "@ {
        ActionView::StepOne
    } else if key == "p"@ {
        ActionView::TogglePlay
    } else if key == "-"@ {
        ActionView::Slower
    } else if key == "="@ {
        ActionView::Faster
    } else if key == "0"@ {
        ActionView::Start
    } else if key == "b"@ {
        match bar {
            Some(n) => ActionView::Until(n),
            None => ActionView::Ignore,
        }
    } else if key == "c"@ {
        ActionView::Until("Classify"@)
    } else if key == "n"@ {
        ActionView::UntilChange
    } else if key == "l"@ {
        ActionView::Follow
    } else if key == "v"@ {
        ActionView::ToggleView
    } else if key == "C"@ {
        ActionView::ClearViews
    } else {
        ActionView::Ignore
    }
}

/// The action a key stands for.
pub fn action_of(key: &str, bar: Option<&str>) -> (r: Action)
    ensures
        r@ == key_action(
            key@,
            match bar {
                Some(n) => Some(n@),
                None => None,
            },
        ),
{
    if same(key, " ") {
        Action::StepOne
    } else if same(key, "p") {
        Action::TogglePlay
    } else if same(key, "-") {
        Action::Slower
    } else if same(key, "=") {
        Action::Faster
    } else if same(key, "0") {
        Action::Start
    } else if same(key, "b") {
        match bar {
            Some(n) => Action::Until(n.to_owned()),
            None => Action::Ignore,
        }
    } else if same(key, "c") {
        Action::Until("Classify".to_owned())
    } else if same(key, "n") {
        Action::UntilChange
    } else if same(key, "l") {
        Action::Follow
    } else if same(key, "v") {
        Action::ToggleView
    } else if same(key, "C") {
        Action::ClearViews
    } else {
        Action::Ignore
    }
}

/// The key stands for an action, the bar key where there is a bar.
pub open spec fn is_bound(key: Seq<char>) -> bool {
    ||| key == " "@
    ||| key == "p"@
    ||| key == "-"@
    ||| key == "="@
    ||| key == "0"@
    ||| key == "b"@
    ||| key == "c"@
    ||| key == "n"@
    ||| key == "l"@
    ||| key == "v"@
    ||| key == "C"@
}

/// Every bound key does something on a graph with a bar, and no other key does anything on any graph.
pub proof fn bound_keys_act(key: Seq<char>, bar: Seq<char>)
    ensures
        is_bound(key) <==> key_action(key, Some(bar)) != ActionView::Ignore,
        !is_bound(key) ==> key_action(key, None) == ActionView::Ignore,
{
}

/// Whether the view takes the key, given whether ctrl, meta and alt are held: a held modifier means a
/// different chord. A bar is only looked up once the key is performed.
pub fn takes_key(key: &str, ctrl: bool, meta: bool, alt: bool) -> (r: bool)
    ensures
        r == (!ctrl && !meta && !alt && is_bound(key@)),
{
    if ctrl || meta || alt {
        return false;
    }
    match action_of(key, Some("Bar")) {
        Action::Ignore => false,
        _ => true,
    }
}

/// The first node from `from` on that is a bar.
pub open spec fn bar_from(t: Seq<TopoView>, from: nat) -> Option<Seq<char>>
    decreases t.len() - from,
{
    if from >= t.len() {
        None
    } else if "Bar"@.is_prefix_of(t[from as int].node) {
        Some(t[from as int].node)
    } else {
        bar_from(t, from + 1)
    }
}

/// The graph's bar: the first node in step order that is named as one.
pub fn bar_node(t: &[TopoNode]) -> (r: Option<String>)
    ensures
        r.deep_view() == bar_from(t.deep_view(), 0),
{
    let ghost tv = t.deep_view();
    let mut i: usize = 0;
    while i < t.len()
        invariant
            tv == t.deep_view(),
            i <= t@.len(),
            bar_from(tv, 0) == bar_from(tv, i as nat),
        decreases t@.len() - i,
    {
        assert(tv[i as int].node == t@[i as int].node@);
        if starts_with(t[i].node.as_str(), "Bar") {
            return Some(t[i].node.clone());
        }
        i += 1;
    }
    None
}

/// What an op is answered with.
#[verifier::ext_equal]
pub enum AnswerView {
    Frame(FrameView),
    Failed(Seq<char>),
}

/// What an op is answered with.
pub open spec fn answer_view(res: Result<ActivationFrame, String>) -> AnswerView {
    match res {
        Ok(f) => AnswerView::Frame(f.deep_view()),
        Err(e) => AnswerView::Failed(e@),
    }
}

impl ControlsView {
    /// A page that has just been opened.
    pub open spec fn opened(views: Map<Seq<char>, bool>) -> ControlsView {
        ControlsView {
            frame: None,
            playing: false,
            follow: true,
            speed: CRUISE as nat,
            error: None,
            selected: Set::empty(),
            waiting: None,
            views,
            hovered: None,
            generation: 0,
            polls: 0,
        }
    }

    /// Whether a node is charted: as chosen, else as it asks by having plots or not.
    pub open spec fn shows(self, n: TopoView) -> bool {
        if self.views.dom().contains(n.node) {
            self.views[n.node]
        } else {
            n.plots.len() > 0
        }
    }

    /// The choice for the node under the pointer turned round.
    pub open spec fn view_toggled(self) -> ControlsView {
        match self.hovered {
            Some((node, default)) => {
                let now = if self.views.dom().contains(node) {
                    self.views[node]
                } else {
                    default
                };
                ControlsView { views: self.views.insert(node, !now), ..self }
            },
            None => self,
        }
    }

    /// A node selected where it was not, and not where it was.
    pub open spec fn select_toggled(self, node: Seq<char>) -> ControlsView {
        ControlsView {
            selected: if self.selected.contains(node) {
                self.selected.remove(node)
            } else {
                self.selected.insert(node)
            },
            ..self
        }
    }

    /// The same frame is shown already.
    pub open spec fn shown_already(self, f: FrameView) -> bool {
        self.frame matches Some(g) && same_frame(g, f)
    }

    /// An answer applied: a frame that shows nothing new is not written, and a failure stops the run.
    pub open spec fn applied(self, a: AnswerView) -> ControlsView {
        match a {
            AnswerView::Frame(f) => if self.shown_already(f) {
                self
            } else {
                ControlsView { frame: Some(f), ..self }
            },
            AnswerView::Failed(e) => ControlsView { playing: false, error: Some(e), ..self },
        }
    }

    /// Where the chart's cursor moves: to a new frame's time, if it has one.
    pub open spec fn cursor_moves(self, a: AnswerView) -> Option<i64> {
        match a {
            AnswerView::Frame(f) => if self.shown_already(f) || f.ts_ns == 0 {
                None
            } else {
                Some(f.ts_ns)
            },
            AnswerView::Failed(_) => None,
        }
    }

    /// An op taken up under a key: it takes the cursor by hand and supersedes what was waiting.
    pub open spec fn begun(self, key: Seq<char>) -> ControlsView {
        ControlsView {
            generation: self.generation + 1,
            follow: false,
            waiting: Some(key),
            ..self
        }
    }

    /// The tape cannot satisfy the op yet.
    pub open spec fn unanswered(a: AnswerView) -> bool {
        a matches AnswerView::Frame(f) && f.pending
    }

    /// What an answer to the op of `generation` comes to.
    pub open spec fn landing(self, generation: nat, a: AnswerView) -> Landing {
        if self.generation != generation {
            Landing::Superseded
        } else if ControlsView::unanswered(a) {
            Landing::Again
        } else {
            Landing::Done
        }
    }

    /// An answer to the op of `generation` taken in.
    pub open spec fn landed(self, generation: nat, a: AnswerView) -> ControlsView {
        match self.landing(generation, a) {
            Landing::Superseded => self,
            Landing::Again => self.applied(a),
            Landing::Done => ControlsView { waiting: None, ..self.applied(a) },
        }
    }

    /// The recording on show is over.
    pub open spec fn is_sealed(self) -> bool {
        self.frame matches Some(f) && f.sealed
    }

    /// The cursor rides an end that still grows: a finished recording has nothing to follow.
    pub open spec fn following(self) -> bool {
        self.follow && !self.is_sealed()
    }

    /// How many polls pass between two fetches of the chart payload, none once there is nothing left
    /// to fetch.
    pub open spec fn period(self) -> nat {
        if self.is_sealed() {
            0
        } else if self.playing || self.following() {
            20
        } else {
            100
        }
    }

    /// What the next poll does.
    pub open spec fn next_poll(self) -> (Option<nat>, bool) {
        (
            if self.following() {
                Some(usize::MAX as nat)
            } else if self.playing {
                Some(self.speed)
            } else {
                None
            },
            self.period() != 0 && (self.polls + 1) % self.period() == 0,
        )
    }
}

/// The choices a stored text holds; an absent or unreadable one holds none.
pub open spec fn stored_views(raw: Option<Seq<char>>) -> Map<Seq<char>, bool> {
    match raw {
        Some(text) => match flags_in(text) {
            Some(m) => m,
            None => unflagged(),
        },
        None => unflagged(),
    }
}

/// The choices read from storage, once the text is parsed.
pub fn views_or_none(parsed: Option<AHashMap<String, bool>>) -> (r: AHashMap<String, bool>)
    ensures
        match parsed {
            Some(m) => flags_of(r) == flags_of(m),
            None => flags_of(r) == unflagged(),
        },
{
    match parsed {
        Some(m) => m,
        None => no_flags(),
    }
}

/// Reads the choices a stored text holds. No entry, or one written in an older shape, is no choice
/// yet: the defaults are a complete answer.
pub fn load_views(raw: Option<&str>) -> (r: AHashMap<String, bool>)
    ensures
        flags_of(r) == stored_views(
            match raw {
                Some(t) => Some(t@),
                None => None,
            },
        ),
{
    let parsed: Option<AHashMap<String, bool>> = match raw {
        Some(text) => match read_flags(text) {
            Ok(m) => Some(m),
            Err(_) => None,
        },
        None => None,
    };
    views_or_none(parsed)
}

/// The text the choices are stored as.
pub fn save_views(views: &AHashMap<String, bool>) -> (json: String)
    ensures
        stored_views(Some(json@)) == flags_of(*views),
{
    write_flags(views)
}

impl Controls {
    /// The speed is one the speed controls can reach.
    pub open spec fn wf(self) -> bool {
        SLOWEST <= self.speed <= FASTEST
    }

    /// A page that has just been opened, with what was stored of its choices.
    pub fn new(raw_views: Option<&str>) -> (r: Controls)
        ensures
            r.wf(),
            r@ == ControlsView::opened(
                stored_views(
                    match raw_views {
                        Some(t) => Some(t@),
                        None => None,
                    },
                ),
            ),
    {
        Controls {
            frame: None,
            playing: false,
            follow: true,
            speed: CRUISE,
            error: None,
            selected: no_names(),
            waiting: None,
            views: load_views(raw_views),
            hovered: None,
            generation: 0,
            polls: 0,
        }
    }

    /// Whether a node is charted.
    pub fn shown(&self, n: &TopoNode) -> (r: bool)
        ensures
            r == self@.shows(n.deep_view()),
    {
        match flag(&self.views, n.node.as_str()) {
            Some(b) => b,
            None => n.plots.len() > 0,
        }
    }

    /// Whether every node is charted as it asks to be.
    pub fn has_no_views(&self) -> (r: bool)
        ensures
            r == (self@.views == unflagged()),
    {
        lacks_flags(&self.views)
    }

    /// The nodes of `t` that are not charted.
    pub fn hidden(&self, t: &[TopoNode]) -> (r: Vec<String>)
        ensures
            r.deep_view() == hidden_names(self@, t.deep_view(), t@.len()),
    {
        let ghost tv = t.deep_view();
        let mut out: Vec<String> = Vec::new();
        let mut i: usize = 0;
        assert(out.deep_view() =~= hidden_names(self@, tv, 0));
        while i < t.len()
            invariant
                tv == t.deep_view(),
                i <= t@.len(),
                out.deep_view() == hidden_names(self@, tv, i as nat),
            decreases t@.len() - i,
        {
            let ghost before = out.deep_view();
            assert(tv[i as int] == t@[i as int].deep_view());
            if !self.shown(&t[i]) {
                out.push(t[i].node.clone());
                assert(out.deep_view() =~= before.push(tv[i as int].node));
            }
            i += 1;
        }
        out
    }

    /// Puts a node, with its own default, under the pointer, or takes it away.
    pub fn point_at(&mut self, hovered: Option<(String, bool)>)
        ensures
            final(self)@ == (ControlsView {
                hovered: match hovered {
                    Some((n, b)) => Some((n@, b)),
                    None => None,
                },
                ..old(self)@
            }),
    {
        self.hovered = hovered;
    }

    /// Shows or hides the node under the pointer, and hands back what is to be stored.
    pub fn toggle_view(&mut self) -> (r: Option<String>)
        ensures
            final(self)@ == old(self)@.view_toggled(),
            match r {
                Some(json) => old(self)@.hovered is Some && stored_views(Some(json@))
                    == final(self)@.views,
                None => old(self)@.hovered is None,
            },
    {
        let (node, default): (String, bool) = match &self.hovered {
            Some((n, d)) => (n.clone(), *d),
            None => {
                return None;
            },
        };
        let now: bool = match flag(&self.views, node.as_str()) {
            Some(b) => b,
            None => default,
        };
        set_flag(&mut self.views, node, !now);
        Some(save_views(&self.views))
    }

    /// Forgets every choice, and hands back what is to be stored.
    pub fn clear_views(&mut self) -> (json: String)
        ensures
            final(self)@ == (ControlsView { views: unflagged(), ..old(self)@ }),
            stored_views(Some(json@)) == unflagged(),
    {
        drop_flags(&mut self.views);
        save_views(&self.views)
    }

    /// Selects a node, or lets go of it.
    pub fn toggle_select(&mut self, node: &str)
        ensures
            final(self)@ == old(self)@.select_toggled(node@),
    {
        if !remove_name(&mut self.selected, node) {
            proof {
                assert(old(self)@.selected.remove(node@) =~= old(self)@.selected);
            }
            insert_name(&mut self.selected, node.to_owned());
        }
    }

    /// Whether a node is selected.
    pub fn is_selected(&self, node: &str) -> (r: bool)
        ensures
            r == self@.selected.contains(node@),
    {
        has_name(&self.selected, node)
    }

    /// Plays or pauses; either way the cursor is taken off the tape's end.
    pub fn toggle_play(&mut self)
        ensures
            final(self)@ == (ControlsView {
                playing: !old(self)@.playing,
                follow: false,
                ..old(self)@
            }),
    {
        self.playing = !self.playing;
        self.follow = false;
    }

    /// Rides the tape's end again, by stepping past it: a step past the head is unanswered by
    /// definition, so this op is issued once and not again.
    pub fn start_follow(&mut self) -> (op: Op)
        ensures
            final(self)@ == (ControlsView { follow: true, ..old(self)@ }),
            op@ == (OpView::Step { n: usize::MAX as nat }),
    {
        self.follow = true;
        Op::Step { n: usize::MAX }
    }

    /// Doubles the speed, up to [`FASTEST`].
    pub fn speed_up(&mut self)
        requires
            old(self).wf(),
        ensures
            final(self).wf(),
            final(self)@ == (ControlsView {
                speed: if old(self)@.speed * 2 < FASTEST {
                    old(self)@.speed * 2
                } else {
                    FASTEST as nat
                },
                ..old(self)@
            }),
    {
        let doubled: usize = self.speed * 2;
        self.speed = if doubled < FASTEST {
            doubled
        } else {
            FASTEST
        };
    }

    /// Halves the speed, down to [`SLOWEST`].
    pub fn speed_down(&mut self)
        requires
            old(self).wf(),
        ensures
            final(self).wf(),
            final(self)@ == (ControlsView {
                speed: if old(self)@.speed / 2 > SLOWEST {
                    old(self)@.speed / 2
                } else {
                    SLOWEST as nat
                },
                ..old(self)@
            }),
    {
        let halved: usize = self.speed / 2;
        self.speed = if halved > SLOWEST {
            halved
        } else {
            SLOWEST
        };
    }

    /// The search for the next change in the selected nodes; nothing selected is nothing to search.
    pub fn change_op(&self) -> (r: Option<Op>)
        ensures
            match r {
                Some(op) => op@ matches OpView::StepUntilChange { nodes } && nodes.no_duplicates()
                    && nodes.len() > 0 && nodes.to_set() == self@.selected,
                None => self@.selected == Set::<Seq<char>>::empty(),
            },
    {
        let nodes: Vec<String> = list_names(&self.selected);
        if nodes.len() == 0 {
            proof {
                assert(nodes.deep_view().to_set() =~= Set::<Seq<char>>::empty());
            }
            return None;
        }
        Some(Op::StepUntilChange { nodes })
    }

    /// Takes an op up under a key; what is handed back tells its answers from those of older ones.
    pub fn begin(&mut self, key: &str) -> (generation: u64)
        requires
            old(self).generation < u64::MAX,
        ensures
            final(self)@ == old(self)@.begun(key@),
            generation == final(self)@.generation,
    {
        self.generation = self.generation + 1;
        self.follow = false;
        self.waiting = Some(key.to_owned());
        self.generation
    }

    /// Whether the control under `key` is waiting for the tape.
    pub fn is_waiting(&self, key: &str) -> (r: bool)
        ensures
            r == (self@.waiting == Some(key@)),
    {
        match &self.waiting {
            Some(k) => same(k.as_str(), key),
            None => false,
        }
    }

    /// Applies an answer; what is handed back is where the chart's cursor moves.
    pub fn apply(&mut self, res: Result<ActivationFrame, String>) -> (r: Option<i64>)
        ensures
            final(self)@ == old(self)@.applied(answer_view(res)),
            r == old(self)@.cursor_moves(answer_view(res)),
    {
        match res {
            Ok(f) => {
                let same_as: bool = match &self.frame {
                    Some(g) => frames_match(g, &f),
                    None => false,
                };
                if same_as {
                    return None;
                }
                let ts_ns: i64 = f.ts_ns;
                self.frame = Some(f);
                if ts_ns == 0 {
                    None
                } else {
                    Some(ts_ns)
                }
            },
            Err(e) => {
                self.playing = false;
                self.error = Some(e);
                None
            },
        }
    }

    /// Takes in the answer to the op of `generation`.
    pub fn land(&mut self, generation: u64, res: Result<ActivationFrame, String>) -> (r: (
        Landing,
        Option<i64>,
    ))
        ensures
            final(self)@ == old(self)@.landed(generation as nat, answer_view(res)),
            r.0 == old(self)@.landing(generation as nat, answer_view(res)),
            r.1 == if r.0 == Landing::Superseded {
                None
            } else {
                old(self)@.cursor_moves(answer_view(res))
            },
    {
        if self.generation != generation {
            return (Landing::Superseded, None);
        }
        let pending: bool = match &res {
            Ok(f) => f.pending,
            Err(_) => false,
        };
        let moves: Option<i64> = self.apply(res);
        if pending {
            return (Landing::Again, moves);
        }
        self.waiting = None;
        (Landing::Done, moves)
    }

    /// Whether the cursor rides an end that still grows.
    pub fn is_following(&self) -> (r: bool)
        ensures
            r == self@.following(),
    {
        let sealed: bool = match &self.frame {
            Some(f) => f.sealed,
            None => false,
        };
        self.follow && !sealed
    }

    /// One free-run poll. Reaching the tape's head is no end: under a live run the tape grows behind
    /// the cursor, so a step that lands on the head is only a poll.
    pub fn poll(&mut self) -> (r: Poll)
        requires
            old(self).polls < u32::MAX,
        ensures
            final(self)@ == (ControlsView { polls: old(self)@.polls + 1, ..old(self)@ }),
            (match r.step {
                Some(n) => Some(n as nat),
                None => None,
            }, r.refetch) == old(self)@.next_poll(),
    {
        self.polls = self.polls + 1;
        let sealed: bool = match &self.frame {
            Some(f) => f.sealed,
            None => false,
        };
        let following: bool = self.is_following();
        let step: Option<usize> = if following {
            Some(usize::MAX)
        } else if self.playing {
            Some(self.speed)
        } else {
            None
        };
        let period: u32 = if sealed {
            0
        } else if self.playing || following {
            20
        } else {
            100
        };
        let refetch: bool = period != 0 && self.polls % period == 0;
        Poll { step, refetch }
    }
}

/// Of the first `n` nodes, those that are not charted.
pub open spec fn hidden_names(c: ControlsView, t: Seq<TopoView>, n: nat) -> Seq<Seq<char>>
    decreases n,
{
    if n == 0 {
        Seq::empty()
    } else {
        let r = hidden_names(c, t, (n - 1) as nat);
        if c.shows(t[n - 1]) {
            r
        } else {
            r.push(t[n - 1].node)
        }
    }
}

/// Selecting twice is not selecting.
pub proof fn selecting_twice_undoes(c: ControlsView, node: Seq<char>)
    ensures
        c.select_toggled(node).select_toggled(node) == c,
{
    assert(c.selected.remove(node).insert(node) =~= c.selected || !c.selected.contains(node));
    assert(c.selected.insert(node).remove(node) =~= c.selected || c.selected.contains(node));
}

/// Toggling turns round whether the pointed-at node is charted, and toggling again turns it back; no
/// other node is touched.
pub proof fn a_toggle_turns_one_view(c: ControlsView, n: TopoView, m: TopoView)
    requires
        c.hovered == Some((n.node, n.plots.len() > 0)),
        m.node != n.node,
    ensures
        c.view_toggled().shows(n) == !c.shows(n),
        c.view_toggled().view_toggled().shows(n) == c.shows(n),
        c.view_toggled().shows(m) == c.shows(m),
{
}

/// A superseded op changes nothing: the cursor is not taken back to where an old request left it.
pub proof fn a_superseded_op_changes_nothing(
    c: ControlsView,
    key: Seq<char>,
    generation: nat,
    a: AnswerView,
)
    requires
        generation <= c.generation,
    ensures
        c.begun(key).landed(generation, a) == c.begun(key),
        c.begun(key).landing(generation, a) == Landing::Superseded,
{
}

/// On a sealed tape every op is answered the first time, and no control is left waiting.
pub proof fn a_sealed_tape_is_answered_at_once(
    c: ControlsView,
    key: Seq<char>,
    t: TapeView,
    op: OpView,
)
    requires
        t.sealed,
    ensures
        ({
            let b = c.begun(key);
            let a = AnswerView::Frame(op_answer(t, op));
            &&& b.landing(b.generation, a) == Landing::Done
            &&& b.landed(b.generation, a).waiting is None
        }),
{
    a_sealed_tape_answers_every_op(t, op);
}

/// An answer applied is on show: applying it again changes nothing and does not move the chart's
/// cursor.
pub proof fn an_answer_applies_once(c: ControlsView, f: FrameView)
    requires
        same_frame(f, f),
    ensures
        c.applied(AnswerView::Frame(f)).shown_already(f),
        c.applied(AnswerView::Frame(f)).applied(AnswerView::Frame(f)) == c.applied(
            AnswerView::Frame(f),
        ),
        c.applied(AnswerView::Frame(f)).cursor_moves(AnswerView::Frame(f)) is None,
{
}

/// The chart tile's share of the dock's columns, and the graph tile's: nine sixteenths and the rest,
/// each at least one.
pub fn seed_widths(cols: usize) -> (r: (usize, usize))
    requires
        cols <= usize::MAX / 9,
    ensures
        ({
            let c: int = if cols >= 2 {
                cols as int
            } else {
                2
            };
            &&& r.0 == if c * 9 / 16 >= 1 {
                c * 9 / 16
            } else {
                1
            }
            &&& r.1 == c - r.0
            &&& r.0 >= 1
            &&& r.1 >= 1
        }),
{
    let c: usize = if cols >= 2 {
        cols
    } else {
        2
    };
    let share: usize = c * 9 / 16;
    let chart: usize = if share >= 1 {
        share
    } else {
        1
    };
    (chart, c - chart)
}

/// The chart tile.
pub const CHART_PANEL: &'static str = "chart";

/// The graph tile.
pub const DAG_PANEL: &'static str = "dag";

/// Which of the two tiles a dock with these open lacks.
pub fn missing_panels(live: &[String]) -> (r: (bool, bool))
    ensures
        r.0 == !live.deep_view().contains(CHART_PANEL@),
        r.1 == !live.deep_view().contains(DAG_PANEL@),
{
    (!crate::text::contains(live, CHART_PANEL), !crate::text::contains(live, DAG_PANEL))
}

/// Where a tape that several readers want at once stands.
#[derive(Clone, Copy, Debug, PartialEq, Eq)]
pub enum Load {
    Cold,
    Fetching,
    Held,
}

/// What a reader that asks for it does.
#[derive(Clone, Copy, Debug, PartialEq, Eq)]
pub enum Claim {
    /// Take it.
    Held,
    /// Ask again: another reader is fetching it.
    Wait,
    /// Fetch it: nobody else is.
    Mine,
}

impl Load {
    /// A reader asks: the first to find it cold is the one that fetches.
    pub fn claim(&mut self) -> (r: Claim)
        ensures
            match *old(self) {
                Load::Held => r == Claim::Held && *final(self) == Load::Held,
                Load::Fetching => r == Claim::Wait && *final(self) == Load::Fetching,
                Load::Cold => r == Claim::Mine && *final(self) == Load::Fetching,
            },
    {
        match *self {
            Load::Held => Claim::Held,
            Load::Fetching => Claim::Wait,
            Load::Cold => {
                *self = Load::Fetching;
                Claim::Mine
            },
        }
    }

    /// The fetch is over. One that failed leaves it cold rather than claimed, so that those who wait
    /// are not left waiting on a fetch that is never coming.
    pub fn settle(&mut self, fetched: bool)
        ensures
            *final(self) == if fetched {
                Load::Held
            } else {
                Load::Cold
            },
    {
        *self = if fetched {
            Load::Held
        } else {
            Load::Cold
        };
    }
}

} // verus!
