//! The parts a tape is made of.
use exec_viz::acts::{Acts, Report};
use exec_viz::api_types::{Activation, PlotOut};
use exec_viz::config::AppConfig;
use exec_viz::cost::{Clock, Cost, BLOCK, TICK_STRIDE};
use exec_viz::floats::{is_finite, is_nan, is_zero};
use exec_viz::names;
use exec_viz::ops::Op;
use exec_viz::rank::rank_of;
use exec_viz::session::{self, ReplaySession, Sampler};
use exec_viz::tape::Inner;

#[test]
fn values_are_classified_by_their_bits() {
    for x in [0.0, -0.0, 1.0, -1.5, f64::MIN_POSITIVE, f64::MAX, 5e-324, f64::INFINITY, f64::NEG_INFINITY, f64::NAN, -f64::NAN] {
        assert_eq!(is_finite(x.to_bits()), x.is_finite(), "{x}");
        assert_eq!(is_nan(x.to_bits()), x.is_nan(), "{x}");
        assert_eq!(is_zero(x.to_bits()), x == 0.0, "{x}");
    }
}

#[test]
fn ranks_count_trailing_zeros() {
    assert_eq!(rank_of(0), 64);
    let ranks: Vec<u8> = (1..=8).map(rank_of).collect();
    assert_eq!(ranks, vec![1, 2, 1, 3, 1, 2, 1, 4]);
    assert_eq!(rank_of(1 << 20), 21);
    for k in 0..20u32 {
        for o in 0..64usize {
            assert_eq!(rank_of(o) as u32 > k, o % (1 << k) == 0);
        }
    }
}

#[test]
fn module_paths_are_dropped_at_every_depth() {
    assert_eq!(
        names::trim("Buffer<spl::nodes::Bar1m, dag::Horizon::Span(v_utils::primitives::timeframe::Timeframe(180000))>"),
        "Buffer<Bar1m, Horizon::Span(Timeframe(180000))>"
    );
    assert_eq!(names::trim("N"), "N");
    assert_eq!(names::trim("a::b::C"), "C");
    // A segment is a module when it starts lowercase, and an underscore does not.
    assert_eq!(names::trim("_private::C"), "_private::C");
    assert_eq!(names::trim("_::B"), "_::B");
    assert_eq!(names::trim("Horizon::Span"), "Horizon::Span");
    assert_eq!(names::trim("::x"), "::x");
    assert_eq!(names::trim("a:b"), "a:b");
    assert_eq!(names::trim("ä::C"), "C");
    assert_eq!(names::trim("mod"), "mod");
}

#[test]
fn a_shown_name_is_shown_as_it_is() {
    for name in ["Buffer<spl::nodes::Bar1m, dag::Horizon::Span(..)>", "a::b::C::d::E", "::x", "a:b::C", "A::b", "_::B"] {
        let once = names::trim(name);
        assert_eq!(names::trim(&once), once, "{name}");
    }
    // Three colons in a row are no path, and what a cut leaves of them may read as one.
    assert_eq!(names::trim("x:a:::B"), "x::B");
    assert_eq!(names::trim("x::B"), "B");
}

#[test]
fn a_session_keeps_the_last_segment() {
    assert_eq!(session::trim("nodes::Rsi<14>"), "Rsi<14>");
    assert_eq!(session::trim("a::b::C<d::E>"), "C<d::E>");
    assert_eq!(session::trim("plain"), "plain");
    assert_eq!(session::trim("a:::b"), "b");
    assert_eq!(session::trim("a::"), "");
    assert!(session::is_balanced("A<B<C>>") && session::is_balanced("A<B"));
    assert!(!session::is_balanced("A>B"));
}

#[test]
fn a_block_closes_on_its_least_sample() {
    let mut c = Cost::new();
    for i in 0..BLOCK as u64 {
        let s = if i == 7 { 100 } else { 100 + 5000 * (i % 3) + i };
        let closed = c.sample(s);
        if i + 1 < BLOCK as u64 {
            assert_eq!(closed, None);
        } else {
            assert_eq!(closed, Some(100));
        }
    }
    assert_eq!(c.ns, None);
    assert_eq!(c.block_n, 0);
    assert_eq!(TICK_STRIDE, 64);
}

#[test]
fn only_the_least_of_each_block_is_read() {
    let minima = |xs: &[u64]| -> Vec<u64> {
        let mut c = Cost::new();
        xs.iter().filter_map(|x| c.sample(*x)).collect()
    };
    let quiet: Vec<u64> = (0..40).map(|i| 100 + i / 16).collect();
    let noisy: Vec<u64> = (0..40).map(|i| if i % 16 == 5 { 100 + i / 16 } else { 9_000 + 37 * i }).collect();
    assert_eq!(minima(&quiet), vec![100, 101]);
    assert_eq!(minima(&noisy), minima(&quiet));
    assert!(minima(&quiet[..15]).is_empty());
}

#[test]
fn a_mark_restarts_the_clock() {
    let mut c = Clock::new(100);
    assert_eq!(c.mark(250), 150);
    assert_eq!(c.mark(250), 0);
    assert_eq!(c.mark(200), 0, "a clock that ran backwards reads zero");
    assert_eq!(c.mark(205), 5);
}

#[test]
fn columns_hold_what_was_reported() {
    let mut a = Acts::new();
    let vals = [1u64, 2];
    let jac = [3u64];
    let cols = [4u64, 5];
    let first = Report { glance: "é1", ran: true, vals: Some(&vals), jac: Some(&jac), exact_block: Some((&cols, &[2])), exact: true };
    let quiet = Report { glance: "ignored", ran: false, vals: None, jac: None, exact_block: None, exact: false };
    assert!(a.has_room(&first));
    a.push(&first);
    a.push(&quiet);
    a.push(&first);
    assert_eq!(a.len(), 3);
    assert!(a.agrees());
    for i in [0, 2] {
        let r = a.get(i).unwrap();
        assert_eq!(r.out, "é1");
        assert_eq!(r.vals, Some(&vals[..]));
        assert_eq!(r.jac, Some(&jac[..]));
        assert_eq!(r.block, Some((&cols[..], &[2usize][..])));
        assert!(r.ran && r.exact);
    }
    let r = a.get(1).unwrap();
    assert_eq!((r.out, r.vals, r.jac, r.block, r.ran, r.exact), ("", None, None, None, false, false));
    assert!(a.get(3).is_none());
    let copy = a.clone();
    assert_eq!(copy.get(2).unwrap().out, "é1");
    a.clear();
    assert_eq!(a.len(), 0);
    assert!(a.agrees());
    let mut torn = copy.clone();
    torn.ends[0].out = 1;
    assert!(!torn.agrees(), "an end inside a character is no end");
    let mut back = copy.clone();
    back.ends[1].vals = 1;
    assert!(back.agrees(), "a column that moves back did not grow");
    assert_eq!(back.get(1).unwrap().vals, None);
    assert_eq!(back.get(2).unwrap().vals, Some(&[2u64, 1, 2][..]));
    for cut in 0..4 {
        let mut past = copy.clone();
        match cut {
            0 => past.ends[2].vals = 5,
            1 => past.ends[2].block = 5,
            2 => past.ends[2].widths = 3,
            _ => past.ran.truncate(2),
        }
        assert!(!past.agrees(), "what grew has to be there");
    }
    let mut more = copy.clone();
    more.outs.push('x');
    more.vals.push(7);
    assert!(more.agrees(), "what no node names is not read");
    assert_eq!(more.get(2).unwrap().out, "é1");
}

#[test]
fn the_port_has_a_default() {
    assert_eq!(AppConfig::default().port, 59994);
}

#[test]
fn ops_are_dispatched() {
    let mut t = Inner::new(None, 4, 1000);
    assert!(!t.dispatch(&Op::Status).pending);
    assert!(t.dispatch(&Op::Step { n: 1 }).pending);
    assert!(t.dispatch(&Op::Seek { tick: 3 }).pending);
    assert!(!t.dispatch(&Op::SeekTs { ts_ns: 3 }).pending);
    assert!(!t.dispatch(&Op::StepUntil { node: "N".into() }).found);
    assert!(!t.dispatch(&Op::StepUntilChange { nodes: vec!["N".into()] }).found);
}

fn fired(node: &str, out: &str, fired: bool) -> Activation {
    Activation {
        node: node.into(),
        deps: vec![],
        gates: vec![],
        out: out.into(),
        detail: String::new(),
        ran: true,
        fired,
        dims: vec![],
        vals: None,
        jac: None,
        exact_block: None,
        cost_ns: None,
        exact: false,
    }
}

#[test]
fn a_session_observes_only_where_it_lands() {
    let mut s = ReplaySession::new(vec![10, 20, 30, 40, 50]);
    assert_eq!(s.frame().ts_ns, 0);
    let p = s.step(3);
    assert_eq!((p.reset, p.from, p.quiet, p.observed), (false, 0, 2, Some(2)));
    s.arrive(&p, vec![fired("N", "a", true)]);
    let f = s.frame();
    assert_eq!((f.tick, f.total, f.ts_ns, f.activations.len()), (3, 5, 30, 1));
    let p = s.step(0);
    assert_eq!((p.from, p.quiet, p.observed), (3, 3, None));
    let p = s.seek(1);
    assert_eq!((p.reset, p.from, p.quiet, p.observed), (true, 0, 0, Some(0)));
    s.arrive(&p, vec![]);
    assert_eq!(s.frame().tick, 1);
    let p = s.seek(100);
    assert_eq!((p.reset, p.from, p.quiet, p.observed), (false, 1, 4, Some(4)));
    s.arrive(&p, vec![fired("N", "b", true), fired("M", "c", false)]);
    assert_eq!(s.next(), None);
    assert!(s.stops_at("N") && !s.stops_at("M"));
    let nodes = vec!["N".to_string(), "M".to_string()];
    assert!(s.stops_on_change(&[fired("N", "a", true)], &nodes));
    assert!(!s.stops_on_change(&[fired("N", "b", true)], &nodes));
    assert!(s.stops_on_change(&[], &nodes));
    assert!(!s.stops_on_change(&[], &[]));
    let p = s.seek(0);
    s.arrive(&p, vec![]);
    assert_eq!((s.frame().tick, s.frame().activations.len()), (0, 0));
}

#[test]
fn a_minute_keeps_its_last_sample() {
    let mut s = Sampler::new();
    let plots: Vec<PlotOut> = vec![];
    for (ts, v) in [(0i64, Some(1u64)), (30_000_000_000, Some(2)), (60_000_000_000, None), (61_000_000_000, Some(3)), (-1_000_000, Some(4))] {
        s.open(ts);
        let vals: Option<Vec<u64>> = v.map(|x| vec![x]);
        s.on("a::N", &["b::M"], &[1], &plots, vals.as_deref(), &format!("N({v:?})"));
    }
    assert_eq!(s.nodes.len(), 1);
    assert_eq!(s.nodes[0].node, "N");
    assert_eq!(s.nodes[0].deps, vec!["M".to_string()]);
    let got: Vec<(i64, Vec<u64>)> = s.nodes[0].points.iter().map(|p| (p.ts_ms, p.vals.clone())).collect();
    assert_eq!(got, vec![(0, vec![2]), (60_000, vec![3]), (-60_000, vec![4])]);
    let details: Vec<&str> = s.nodes[0].points.iter().map(|p| p.detail.as_str()).collect();
    assert_eq!(details, vec!["N(Some(2))", "N(Some(3))", "N(Some(4))"]);
}

#[test]
fn a_days_series_are_what_its_ticks_told() {
    const MINUTE: i64 = 60_000_000_000;
    let plots: Vec<PlotOut> = vec![];
    let mut s = Sampler::new();
    // A first tick cut short, then three whole ones out of order; `B` is quiet on the second.
    s.open(5 * MINUTE);
    s.on("x::A", &[], &[1], &plots, Some(&[1]), "a1");
    for (ts, a, b) in [(4, 2u64, Some(20u64)), (5, 3, None), (4, 4, Some(40))] {
        s.open(ts * MINUTE + 7);
        s.on("x::A", &[], &[1], &plots, Some(&[a]), &format!("a{a}"));
        let vals: Option<Vec<u64>> = b.map(|v| vec![v]);
        s.on("x::B", &["x::A"], &[1], &plots, vals.as_deref(), &format!("b{b:?}"));
    }
    let told = |i: usize| -> Vec<(i64, Vec<u64>, String)> {
        s.nodes[i].points.iter().map(|p| (p.ts_ms, p.vals.clone(), p.detail.clone())).collect()
    };
    assert_eq!(s.nodes.len(), 2);
    assert_eq!((s.nodes[0].node.as_str(), s.nodes[1].node.as_str()), ("A", "B"));
    assert_eq!(told(0), vec![(300_000, vec![3], "a3".to_string()), (240_000, vec![4], "a4".to_string())]);
    assert_eq!(told(1), vec![(240_000, vec![40], "bSome(40)".to_string())]);
}

#[test]
fn a_minute_come_back_to_is_the_same_minute() {
    const MINUTE: i64 = 60_000_000_000;
    let mut s = Sampler::new();
    let plots: Vec<PlotOut> = vec![];
    for (k, min) in [2i64, 3, 2].into_iter().enumerate() {
        s.open(min * MINUTE);
        let vals = vec![k as u64];
        s.on("N", &[], &[1], &plots, Some(&vals), "");
    }
    let got: Vec<(i64, Vec<u64>)> = s.nodes[0].points.iter().map(|p| (p.ts_ms, p.vals.clone())).collect();
    assert_eq!(got, vec![(120_000, vec![2]), (180_000, vec![1])]);
}

/// A graph whose tick shows every event it was ticked with, driven as a plan says.
fn drive(s: &mut ReplaySession, fed: &mut Vec<usize>, p: session::Plan) {
    if p.reset {
        fed.clear();
    }
    fed.extend(p.from..p.quiet);
    let mut seen = vec![];
    if let Some(i) = p.observed {
        fed.push(i);
        seen.push(fired("N", &format!("{fed:?}"), true));
    }
    s.arrive(&p, seen);
}

#[test]
fn a_seek_shows_what_a_fresh_run_shows() {
    let times: Vec<i64> = vec![10, 20, 30, 40, 50];
    let show = |s: &ReplaySession| {
        let f = s.frame();
        (f.tick, f.total, f.ts_ns, f.activations.iter().map(|a| a.out.clone()).collect::<Vec<_>>())
    };
    let mut s = ReplaySession::new(times.clone());
    let mut fed = vec![];
    for tick in [3, 1, 0, 5, 2, 9, 4, 4] {
        let p = s.seek(tick);
        drive(&mut s, &mut fed, p);
        let mut fresh = ReplaySession::new(times.clone());
        let mut again = vec![];
        let p = fresh.step(tick);
        drive(&mut fresh, &mut again, p);
        assert_eq!(show(&s), show(&fresh), "{tick}");
        assert_eq!(fed, again);
    }
    let p = s.seek(0);
    drive(&mut s, &mut fed, p);
    assert_eq!(show(&s), (0, 5, 0, vec![]));
}

#[test]
fn one_observed_tick_shows_the_graph() {
    let jac = [f64::NAN.to_bits(), 2.0f64.to_bits()];
    let vals = [f64::INFINITY.to_bits()];
    let f = Report { glance: "g", ran: true, vals: Some(&vals), jac: Some(&jac), exact_block: None, exact: true };
    let a = session::collect("x::N<y::T>", &["z::M"], &["z::G"], &[1], &f, "N { t: inf }");
    assert_eq!(a.detail, "N { t: inf }");
    assert_eq!((a.node.as_str(), a.out.as_str(), a.fired), ("N<y::T>", "g", true));
    assert_eq!((a.deps.clone(), a.gates.clone()), (vec!["M".to_string()], vec!["G".to_string()]));
    assert_eq!(a.vals, Some(vec![Some(f64::INFINITY.to_bits())]));
    assert_eq!(a.jac, Some(vec![None, Some(2.0f64.to_bits())]));
    let t = session::topology(&[a], &[vec![]]);
    assert_eq!((t.len(), t[0].node.as_str(), t[0].dims.clone()), (1, "N<y::T>", vec![1]));
}
