//! The front-ends' decisions: layout, edges, controls, gates.
use exec_viz::api_types::{Activation, ActivationFrame, FidelityOut, PlotOut, TopoNode};
use exec_viz::board::{dock_on, draw, draw_plain, has_scalar_gates, is_drawable, is_plain_drawable};
use exec_viz::controls::{
    action_of, bar_node, load_views, missing_panels, save_views, seed_widths, Action, Claim, Controls,
    Landing, Load, Poll,
};
use exec_viz::frames::frames_match;
use exec_viz::gates::{
    find_track, gates_of, page_action_of, takes_key, wave, Page, PageAction,
};
use exec_viz::ops::{refusal, Op};
use exec_viz::panel::{
    card_class, docked_class, edges, find_act, grid_width, hovered_deps, is_open, pointed, Hover,
    Link, LinkError,
};

fn num(x: f64) -> u64 {
    x.to_bits()
}

fn strings(names: &[&str]) -> Vec<String> {
    names.iter().map(|n| n.to_string()).collect()
}

fn plot() -> PlotOut {
    PlotOut {
        slots: vec![],
        range: None,
        guides: vec![],
        labels: vec![],
        inks: vec![],
        overlay: false,
        solo: false,
        bars: false,
        candles: false,
    }
}

fn node(name: &str, deps: &[&str], gates: &[&str], dims: &[usize]) -> TopoNode {
    TopoNode {
        node: name.to_string(),
        deps: strings(deps),
        gates: strings(gates),
        dims: dims.to_vec(),
        plots: vec![plot()],
        cost_ns: None,
        fidelity: FidelityOut::Exact,
        deriv: None,
    }
}

fn act(name: &str, deps: &[&str], dims: &[usize], vals: Option<Vec<Option<u64>>>) -> Activation {
    Activation {
        node: name.to_string(),
        deps: strings(deps),
        gates: vec![],
        out: String::new(),
        detail: String::new(),
        ran: true,
        fired: vals.is_some(),
        dims: dims.to_vec(),
        vals,
        jac: None,
        exact_block: None,
        cost_ns: None,
        exact: false,
    }
}

fn frame(tick: usize, total: usize, activations: Vec<Activation>) -> ActivationFrame {
    ActivationFrame {
        tick,
        total,
        sealed: false,
        dropped: 0,
        pending: false,
        found: true,
        gap: 1,
        ts_ns: tick as i64,
        activations,
    }
}

#[test]
fn gates_and_buffers_dock_rather_than_take_a_column() {
    let t = vec![
        node("A", &[], &[], &[1]),
        node("G", &["A"], &[], &[1]),
        node("Buffer<A, Span( 9 ) >", &["A"], &[], &[1]),
        node("B", &["Buffer<A, Span( 9 ) >", "A"], &["G"], &[1]),
        node("C", &["B", "A"], &[], &[1]),
    ];
    assert!(is_drawable(&t));
    let b = draw(&t);
    assert_eq!(b.gates, vec!["G".to_string()]);
    assert_eq!(b.docks.len(), 1);
    assert_eq!(
        (b.docks[0].source.as_str(), b.docks[0].buffer.as_str(), b.docks[0].depth.as_str()),
        ("A", "Buffer<A, Span( 9 ) >", "Span( 9 )")
    );
    assert_eq!((dock_on(&b.docks, "A"), dock_on(&b.docks, "B")), (Some(0), None));
    assert_eq!(b.columns, vec![vec![0], vec![3], vec![4]]);
    assert_eq!(draw_plain(&t), vec![vec![0], vec![1, 2], vec![3], vec![4]]);
}

#[test]
fn graphs_that_cannot_be_drawn_are_told() {
    let late = vec![node("B", &["A"], &[], &[1]), node("A", &[], &[], &[1])];
    assert!(!is_drawable(&late) && !is_plain_drawable(&late));
    let two_owners = vec![
        node("G", &[], &[], &[1]),
        node("A", &[], &["G"], &[1]),
        node("B", &[], &["G"], &[1]),
    ];
    assert!(!is_drawable(&two_owners) && is_plain_drawable(&two_owners));
    let gate_dep = vec![
        node("G", &[], &[], &[1]),
        node("A", &[], &["G"], &[1]),
        node("B", &["G"], &[], &[1]),
    ];
    assert!(!is_drawable(&gate_dep));
    let orphan = vec![node("Buffer<A, 3>", &[], &[], &[1])];
    assert!(!is_drawable(&orphan));
}

#[test]
fn a_docked_gate_is_a_scalar_node() {
    let host = |dims: &[usize]| vec![node("G", &[], &[], dims), node("A", &[], &["G"], &[3])];
    assert!(has_scalar_gates(&host(&[1])) && has_scalar_gates(&host(&[1, 1])) && has_scalar_gates(&host(&[])));
    assert!(!has_scalar_gates(&host(&[2])) && !has_scalar_gates(&host(&[0])));
    let unlisted = vec![node("A", &[], &["G"], &[1])];
    assert!(is_drawable(&unlisted) && !has_scalar_gates(&unlisted));
    // A gate has no card of its own, so nothing is docked on it.
    let nested = vec![node("G", &[], &["H"], &[1]), node("A", &[], &["G"], &[1])];
    assert!(is_drawable(&nested) && has_scalar_gates(&nested));
}

#[test]
fn a_jacobian_resolves_to_elements() {
    let t = vec![node("A", &[], &[], &[2]), node("B", &[], &[], &[3]), node("C", &["A", "B"], &[], &[2])];
    let mut a = act("C", &["A", "B"], &[2], None);
    assert_eq!(edges(&a, &t), Ok(vec![]));
    let mut jac = vec![None; 10];
    jac[1] = Some(num(1.0));
    jac[2] = Some(num(0.0));
    jac[4] = Some(num(-2.0));
    jac[7] = Some(num(-0.0));
    jac[8] = Some(num(3.0));
    a.jac = Some(jac);
    assert_eq!(
        edges(&a, &t),
        Ok(vec![
            Link { dep: 0, from: 1, to: 0, w: num(1.0) },
            Link { dep: 1, from: 2, to: 0, w: num(-2.0) },
            Link { dep: 1, from: 1, to: 1, w: num(3.0) },
        ])
    );
    a.jac = Some(vec![None; 9]);
    assert_eq!(edges(&a, &t), Err(LinkError::Shape));
    a.deps = strings(&["A", "Z"]);
    assert_eq!(edges(&a, &t), Err(LinkError::UnknownDep));
}

#[test]
fn the_pointer_picks_edges() {
    assert!(Hover::Nothing.shows("A", 0, "B", 1));
    let card = Hover::Card("B".into());
    assert!(card.shows("A", 0, "B", 1) && card.shows("B", 0, "C", 1) && !card.shows("A", 0, "C", 1));
    let cell = Hover::Cell("B".into(), 1);
    assert!(cell.shows("A", 0, "B", 1) && !cell.shows("A", 0, "B", 0) && cell.shows("B", 1, "C", 0));
    assert_eq!(cell.node(), Some("B"));
    assert_eq!(Hover::Nothing.node(), None);
    let t = vec![
        node("A", &[], &[], &[1]),
        node("Buffer<A, 3>", &["A"], &[], &[1]),
        node("B", &["Buffer<A, 3>"], &[], &[1]),
    ];
    let b = draw(&t);
    assert_eq!(hovered_deps(&Hover::Card("B".into()), &t, &b.docks), vec!["A".to_string()]);
    assert!(hovered_deps(&Hover::Card("Z".into()), &t, &b.docks).is_empty());
}

#[test]
fn the_pointer_names_a_charted_node() {
    let mut t = vec![
        node("A", &[], &[], &[1]),
        node("Buffer<A, 3>", &["A"], &[], &[1]),
        node("B", &["Buffer<A, 3>"], &[], &[1]),
    ];
    t[2].plots.clear();
    let b = draw(&t);
    let at = |h: Hover| pointed(&h, &t, &b.docks);
    assert_eq!(at(Hover::Card("A".into())), Some(("A".to_string(), true)));
    assert_eq!(at(Hover::Cell("Buffer<A, 3>".into(), 0)), Some(("A".to_string(), true)), "a buffer stands for its series");
    assert_eq!(at(Hover::Card("B".into())), Some(("B".to_string(), false)), "a node without plots is not charted");
    assert_eq!(at(Hover::Card("Z".into())), None);
    assert_eq!(at(Hover::Nothing), None);
    let card = Hover::Card("B".into());
    assert!(card.tips("B", "full") && !card.tips("B", "") && !card.tips("A", "full"));
    assert!(Hover::Cell("B".into(), 2).tips("B", "full") && !Hover::Nothing.tips("B", "full"));
}

#[test]
fn cards_read_as_they_stand() {
    assert_eq!(card_class(false, false, false, false), "dag-card");
    assert_eq!(card_class(true, true, true, true), "dag-card lit dep sel hist");
    assert_eq!(docked_class(true, true, false), "dag-gate lit");
    assert_eq!(docked_class(false, false, true), "dag-hist sel");
    assert_eq!(grid_width(&vec![2, 3]), 3);
    assert_eq!(grid_width(&vec![]), 1);
    assert!(is_open(&Some(vec![Some(num(1.0))])));
    assert!(!is_open(&Some(vec![Some(num(-0.0))])) && !is_open(&Some(vec![None])) && !is_open(&None));
    let acts = vec![act("A", &[], &[1], None), act("A", &[], &[1], Some(vec![None]))];
    assert_eq!(find_act(&acts, "A"), Some(1));
    assert_eq!(find_act(&acts, "B"), None);
}

#[test]
fn a_buffers_depth_is_read_between_white_space() {
    for (name, depth) in [
        ("Buffer<A, 3>", "3"),
        ("Buffer<A,\u{3000}\u{2009}3\u{85}>", "3"),
        ("Buffer<A,\t3 x\n>", "3 x"),
        ("Buffer<A, \u{200b}3>", "\u{200b}3"),
    ] {
        let t = vec![node("A", &[], &[], &[1]), node(name, &["A"], &[], &[1])];
        assert!(is_drawable(&t));
        assert_eq!(draw(&t).docks[0].depth, depth, "{name:?}");
    }
}

#[test]
fn frames_compare_as_numbers() {
    let a = frame(1, 2, vec![act("A", &[], &[1], Some(vec![Some(num(0.0))]))]);
    let b = frame(1, 2, vec![act("A", &[], &[1], Some(vec![Some(num(-0.0))]))]);
    let c = frame(1, 2, vec![act("A", &[], &[1], Some(vec![Some(num(1.0))]))]);
    let d = frame(1, 2, vec![act("A", &[], &[1], Some(vec![Some(num(f64::NAN))]))]);
    assert!(frames_match(&a, &b) && !frames_match(&a, &c) && !frames_match(&d, &d));
    let mut e = a.clone();
    e.pending = true;
    assert!(!frames_match(&a, &e));
    let mut f = a.clone();
    f.activations[0].detail = "full".into();
    assert!(frames_match(&f, &f.clone()) && !frames_match(&a, &f));
}

#[test]
fn a_choice_of_views_survives_storage() {
    let mut c = Controls::new(None);
    let n = node("A", &[], &[], &[1]);
    let mut bare = node("B", &[], &[], &[1]);
    bare.plots.clear();
    assert!(c.shown(&n) && !c.shown(&bare) && c.has_no_views());
    assert_eq!(c.toggle_view(), None, "nothing under the pointer is nothing to toggle");
    c.point_at(Some(("A".into(), true)));
    let stored = c.toggle_view().unwrap();
    assert_eq!(stored, "{\"A\":false}");
    assert!(!c.shown(&n) && !c.has_no_views());
    assert_eq!(c.hidden(&[n.clone(), bare.clone()]), strings(&["A", "B"]));
    let again = Controls::new(Some(&stored));
    assert!(!again.shown(&n));
    assert_eq!(save_views(&load_views(Some(&stored))), stored);
    c.toggle_view();
    assert!(c.shown(&n) && !c.has_no_views());
    assert_eq!(c.clear_views(), "{}");
    assert!(c.has_no_views());
    assert!(Controls::new(Some("not json")).has_no_views());
    assert!(Controls::new(Some("[1]")).has_no_views());
}

#[test]
fn selecting_twice_lets_go() {
    let mut c = Controls::new(None);
    assert!(c.change_op().is_none());
    c.toggle_select("A");
    c.toggle_select("B");
    assert!(c.is_selected("A") && c.is_selected("B"));
    match c.change_op() {
        Some(Op::StepUntilChange { mut nodes }) => {
            nodes.sort();
            assert_eq!(nodes, strings(&["A", "B"]));
        }
        _ => panic!("a selection is a search"),
    }
    c.toggle_select("A");
    assert!(!c.is_selected("A") && c.is_selected("B"));
}

#[test]
fn speeds_stay_within_reach() {
    let mut c = Controls::new(None);
    assert_eq!(c.speed, 512);
    for _ in 0..20 {
        c.speed_up();
    }
    assert_eq!(c.speed, 65536);
    for _ in 0..40 {
        c.speed_down();
    }
    assert_eq!(c.speed, 1);
}

#[test]
fn an_op_is_issued_again_until_it_is_answered() {
    let mut c = Controls::new(None);
    let g = c.begin("step");
    assert!(c.is_waiting("step") && !c.follow);
    let mut wait = frame(3, 3, vec![]);
    wait.pending = true;
    assert_eq!(c.land(g, Ok(wait.clone())), (Landing::Again, Some(3)));
    assert_eq!(c.land(g, Ok(wait)), (Landing::Again, None), "the same frame is not written twice");
    let newer = c.begin("seek");
    assert_eq!(c.land(g, Ok(frame(9, 9, vec![]))), (Landing::Superseded, None));
    assert_eq!(c.frame.as_ref().unwrap().tick, 3);
    assert_eq!(c.land(newer, Ok(frame(4, 9, vec![]))), (Landing::Done, Some(4)));
    assert_eq!(c.waiting, None);
    c.playing = true;
    assert_eq!(c.apply(Err("gone".into())), None);
    assert!(!c.playing && c.error.as_deref() == Some("gone"));
}

#[test]
fn a_poll_follows_plays_or_idles() {
    let mut c = Controls::new(None);
    assert!(c.is_following());
    assert_eq!(c.poll(), Poll { step: Some(usize::MAX), refetch: false });
    for _ in 0..18 {
        c.poll();
    }
    assert_eq!(c.poll(), Poll { step: Some(usize::MAX), refetch: true });
    c.toggle_play();
    assert_eq!(c.poll(), Poll { step: Some(512), refetch: false });
    c.toggle_play();
    assert_eq!(c.poll().step, None);
    for _ in 0..76 {
        c.poll();
    }
    assert_eq!(c.poll(), Poll { step: None, refetch: false });
    assert_eq!(c.poll(), Poll { step: None, refetch: true });
    let mut sealed = frame(1, 1, vec![]);
    sealed.sealed = true;
    c.apply(Ok(sealed));
    assert!(matches!(c.start_follow(), Op::Step { n: usize::MAX }));
    assert!(!c.is_following(), "a finished recording has nothing to follow");
    for _ in 0..200 {
        assert_eq!(c.poll(), Poll { step: None, refetch: false });
    }
}

#[test]
fn keys_ask_for_what_they_say() {
    let bar = Some("Bars<1>");
    assert!(matches!(action_of(" ", bar), Action::StepOne));
    assert!(matches!(action_of("p", bar), Action::TogglePlay));
    assert!(matches!(action_of("-", bar), Action::Slower));
    assert!(matches!(action_of("=", bar), Action::Faster));
    assert!(matches!(action_of("0", bar), Action::Start));
    assert!(matches!(action_of("b", bar), Action::Until(n) if n == "Bars<1>"));
    assert!(matches!(action_of("b", None), Action::Ignore));
    assert!(matches!(action_of("c", bar), Action::Until(n) if n == "Classify"));
    assert!(matches!(action_of("n", bar), Action::UntilChange));
    assert!(matches!(action_of("l", bar), Action::Follow));
    assert!(matches!(action_of("v", bar), Action::ToggleView));
    assert!(matches!(action_of("C", bar), Action::ClearViews));
    assert!(matches!(action_of("x", bar), Action::Ignore));
    let t = vec![node("Book", &[], &[], &[1]), node("Bars<1>", &[], &[], &[5]), node("Bar1m", &[], &[], &[5])];
    assert_eq!(bar_node(&t), Some("Bars<1>".to_string()));
    assert_eq!(bar_node(&t[..1]), None);
}

#[test]
fn a_docked_view_takes_the_keys_that_act() {
    let takes = exec_viz::controls::takes_key;
    for key in [" ", "p", "-", "=", "0", "b", "c", "n", "l", "v", "C"] {
        assert!(takes(key, false, false, false), "{key}");
        assert!(!takes(key, true, false, false) && !takes(key, false, true, false) && !takes(key, false, false, true));
    }
    for key in ["", "x", "P", "g", "Enter"] {
        assert!(!takes(key, false, false, false), "{key}");
    }
}

#[test]
fn tiles_are_seeded_and_offered_back() {
    assert_eq!(seed_widths(16), (9, 7));
    assert_eq!(seed_widths(0), (1, 1));
    assert_eq!(seed_widths(3), (1, 2));
    assert_eq!(missing_panels(&strings(&["chart"])), (false, true));
    assert_eq!(missing_panels(&strings(&[])), (true, true));
    assert_eq!(missing_panels(&strings(&["dag", "chart"])), (false, false));
}

#[test]
fn one_reader_fetches_and_the_others_wait() {
    let mut l = Load::Cold;
    assert_eq!(l.claim(), Claim::Mine);
    assert_eq!(l.claim(), Claim::Wait);
    l.settle(false);
    assert_eq!(l.claim(), Claim::Mine);
    l.settle(true);
    assert_eq!(l.claim(), Claim::Held);
    assert_eq!(l, Load::Held);
}

#[test]
fn a_page_that_is_not_fetched_is_refused() {
    assert_eq!(refusal("GET"), None);
    assert_eq!(refusal("POST"), Some("no such route for POST".to_string()));
}

#[test]
fn gates_are_sorted_each_once() {
    let t = vec![
        node("A", &[], &["z", "b"], &[1]),
        node("B", &[], &["b", "é", "a"], &[1]),
    ];
    assert_eq!(gates_of(&t), strings(&["a", "b", "z", "é"]));
}

#[test]
fn a_gates_track_is_a_square_wave() {
    let mut p = Page::new();
    p.learn(&[node("A", &[], &["G"], &[1])]);
    let show = |tick: usize, v: f64| {
        frame(tick, 100, vec![act("G", &[], &[1], Some(vec![Some(num(v))]))])
    };
    for (tick, v) in [(1, 0.0), (2, 1.0), (3, 2.0), (5, 0.0)] {
        let f = show(tick, v);
        assert!(p.can_read(&f));
        assert_eq!(p.apply(Ok(f)), Some(tick as i64));
    }
    assert_eq!(p.hist[0].seen, vec![(1, false), (2, true), (5, false)]);
    assert_eq!((find_track(&p.hist, "G"), find_track(&p.hist, "A")), (Some(0), None));
    assert!(!p.hist[0].is_open());
    p.apply(Ok(show(6, 1.0)));
    assert!(p.hist[0].is_open());
    p.apply(Ok(show(6, 0.0)));
    p.apply(Ok(show(5, 0.0)));
    assert_eq!(
        wave(&p.hist[0].seen, 8),
        vec![(1, false), (2, false), (2, true), (5, true), (5, false), (8, false)]
    );
    // A backward seek forgets what is at or past it.
    p.apply(Ok(show(2, 0.0)));
    assert_eq!(p.hist[0].seen, vec![(1, false)]);
    p.apply(Ok(frame(1, 100, vec![])));
    assert!(p.hist[0].seen.is_empty());
    assert!(wave(&[], 5).is_empty());
    // Only what is shown of a gate has to be there to be read.
    assert!(!p.can_read(&frame(1, 1, vec![act("G", &[], &[1], Some(vec![]))])));
    assert!(p.can_read(&frame(1, 1, vec![act("A", &[], &[1], Some(vec![]))])));
}

#[test]
fn a_page_stops_at_the_end_and_on_failure() {
    let mut p = Page::new();
    p.toggle_play();
    p.apply(Ok(frame(1, 2, vec![])));
    assert!(p.playing);
    p.apply(Ok(frame(2, 2, vec![])));
    assert!(!p.playing);
    p.toggle_play();
    p.apply(Err("gone".into()));
    assert!(!p.playing && p.error.as_deref() == Some("gone"));
    p.toggle_gates();
    assert!(p.gates_visible);
    p.speed_up();
    assert_eq!(p.speed, 1024);
    p.speed_down();
    p.speed_down();
    assert_eq!(p.speed, 256);
    p.toggle_select("A");
    p.toggle_select("B");
    p.toggle_select("A");
    assert!(matches!(p.change_op(), Some(Op::StepUntilChange { nodes }) if nodes == strings(&["B"])));
    p.toggle_select("B");
    assert!(p.change_op().is_none());
}

#[test]
fn a_held_modifier_is_another_chord() {
    assert!(takes_key("p", false, false, false));
    assert!(!takes_key("p", true, false, false));
    assert!(!takes_key("p", false, true, false));
    assert!(!takes_key("p", false, false, true));
    assert!(!takes_key("x", false, false, false));
    assert_eq!(page_action_of("g"), PageAction::ToggleGates);
    assert_eq!(page_action_of("b"), PageAction::NextBar);
    assert_eq!(page_action_of("c"), PageAction::NextClassify);
    assert_eq!(page_action_of("x"), PageAction::Ignore);
}
