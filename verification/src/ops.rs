//! The ops a client can ask of a tape.
use vstd::prelude::*;

use crate::api_types::{ActivationFrame, FrameView};
use crate::model::TapeView;
use crate::tape::Inner;
use crate::text::same;

verus! {

/// A cursor op.
pub enum Op {
    /// Where the cursor stands.
    Status,
    /// That many retained ticks on.
    Step { n: usize },
    /// To a tick by number.
    Seek { tick: usize },
    /// To a tick by time.
    SeekTs { ts_ns: i64 },
    /// To a node's next fire.
    StepUntil { node: String },
    /// To the next change in any of several nodes.
    StepUntilChange { nodes: Vec<String> },
}

/// A cursor op.
#[verifier::ext_equal]
pub enum OpView {
    Status,
    Step { n: nat },
    Seek { tick: nat },
    SeekTs { ts_ns: i64 },
    StepUntil { node: Seq<char> },
    StepUntilChange { nodes: Seq<Seq<char>> },
}

impl View for Op {
    type V = OpView;

    open spec fn view(&self) -> OpView {
        match *self {
            Op::Status => OpView::Status,
            Op::Step { n } => OpView::Step { n: n as nat },
            Op::Seek { tick } => OpView::Seek { tick: tick as nat },
            Op::SeekTs { ts_ns } => OpView::SeekTs { ts_ns },
            Op::StepUntil { node } => OpView::StepUntil { node: node@ },
            Op::StepUntilChange { nodes } => OpView::StepUntilChange { nodes: nodes.deep_view() },
        }
    }
}

/// The tape once the op is done.
pub open spec fn after_op(t: TapeView, op: OpView) -> TapeView {
    match op {
        OpView::Status => t,
        OpView::Step { n } => t.stepped(n),
        OpView::Seek { tick } => t.sought(tick),
        OpView::SeekTs { ts_ns } => t.sought_ts(ts_ns),
        OpView::StepUntil { node } => match t.until(node) {
            Some(ws) => t.scanned(ws),
            None => t,
        },
        OpView::StepUntilChange { nodes } => t.scanned(t.watching(nodes, t.nodes())),
    }
}

/// What the op is answered with.
pub open spec fn op_answer(t: TapeView, op: OpView) -> FrameView {
    let f = after_op(t, op).frame();
    match op {
        OpView::Status => f,
        OpView::Step { n } => FrameView { pending: t.step_pending(n), ..f },
        OpView::Seek { tick } => FrameView { pending: t.seek_pending(tick), ..f },
        OpView::SeekTs { ts_ns } => FrameView { pending: t.seek_ts_pending(ts_ns), ..f },
        OpView::StepUntil { node } => match t.until(node) {
            Some(ws) => t.scan_frame(ws),
            None => FrameView { found: false, ..f },
        },
        OpView::StepUntilChange { nodes } => t.scan_frame(t.watching(nodes, t.nodes())),
    }
}

impl Inner {
    /// Does an op and answers with where the cursor stands then.
    pub fn dispatch(&mut self, op: &Op) -> (r: ActivationFrame)
        requires
            old(self).wf(),
        ensures
            final(self).wf(),
            final(self)@ == after_op(old(self)@, op@),
            r.deep_view() == op_answer(old(self)@, op@),
    {
        match op {
            Op::Status => self.frame(),
            Op::Step { n } => self.step(*n),
            Op::Seek { tick } => self.seek(*tick),
            Op::SeekTs { ts_ns } => self.seek_ts(*ts_ns),
            Op::StepUntil { node } => self.step_until(node.as_str()),
            Op::StepUntilChange { nodes } => self.step_until_change(nodes.as_slice()),
        }
    }
}

/// An op moves the cursor and nothing else.
pub proof fn an_op_moves_only_the_cursor(t: TapeView, op: OpView)
    ensures
        after_op(t, op) == (TapeView { cursor: after_op(t, op).cursor, ..t }),
{
}

/// No op on a sealed tape is answered with a wait.
pub proof fn a_sealed_tape_answers_every_op(t: TapeView, op: OpView)
    requires
        t.sealed,
    ensures
        !op_answer(t, op).pending,
{
}

/// What the server answers to a path that names no route and no asset: the page where it is fetched,
/// so that a deep link boots the client, and a loud refusal where it is not, so that an unknown call
/// is not handed a page to parse.
pub fn refusal(method: &str) -> (r: Option<String>)
    ensures
        match r {
            Some(why) => method@ != "GET"@ && why@ == "no such route for "@ + method@,
            None => method@ == "GET"@,
        },
{
    if same(method, "GET") {
        None
    } else {
        let mut why: String = "no such route for ".to_owned();
        why.append(method);
        Some(why)
    }
}

} // verus!
