//! Recording and walking a tape end to end: the recorder's ticks, absorbed, replayed and written down.
use std::collections::VecDeque;

use exec_viz::acts::{Acts, Report};
use exec_viz::api_types::{FidelityOut, PlotOut};
use exec_viz::cost::TICK_STRIDE;
use exec_viz::file::{header, read_header, FileError};
use exec_viz::recorder::{Backpressure, Fire, Recorder, Refusal, QUEUE};
use exec_viz::replay::PriceFault;
use exec_viz::tape::{batch_cap, recycle_depth, total_bytes, Footprint, Inner, TickMsg};

const MINUTE: i64 = 60 * 1_000_000_000;

fn bits(vals: &[f64]) -> Vec<u64> {
    vals.iter().map(|v| v.to_bits()).collect()
}

/// What every report of these tests is made of.
struct Kit {
    plots: Vec<PlotOut>,
    fidelity: FidelityOut,
    deriv: Option<String>,
}

impl Kit {
    fn new() -> Kit {
        Kit {
            plots: vec![PlotOut {
                slots: vec![],
                range: None,
                guides: vec![],
                labels: vec![],
                inks: vec![],
                overlay: false,
                solo: false,
                bars: false,
                candles: false,
            }],
            fidelity: FidelityOut::Exact,
            deriv: None,
        }
    }

    fn fire<'a>(&'a self, dims: &'static [usize], vals: Option<&'a [u64]>) -> Fire<'a> {
        Fire {
            dims,
            plots: &self.plots,
            clock_ms: None,
            fidelity: &self.fidelity,
            deriv: &self.deriv,
            report: Report { glance: "NaN", ran: true, vals, jac: None, exact_block: None, exact: false },
        }
    }
}

/// A recorder and the tape it records to, with nothing between them.
struct Rig {
    kit: Kit,
    rec: Recorder,
    tape: Inner,
    spare: Vec<Acts>,
}

impl Rig {
    fn new(price_node: Option<&str>, capacity: usize, bucket_ms: i64) -> Rig {
        Rig {
            kit: Kit::new(),
            rec: Recorder::new(Backpressure::Block, 0),
            tape: Inner::new(price_node, capacity, bucket_ms),
            spare: Vec::new(),
        }
    }

    fn at(&mut self, ts_ns: i64) {
        let buffer = if self.rec.wants_buffer() { self.spare.pop() } else { None };
        self.rec.at(ts_ns, 0, buffer);
    }

    fn on(
        &mut self,
        node: &'static str,
        deps: &'static [&'static str],
        gates: &'static [bool],
        dims: &'static [usize],
        vals: Option<&[f64]>,
    ) {
        let bits: Option<Vec<u64>> = vals.map(bits);
        let fire = self.kit.fire(dims, bits.as_deref());
        assert_eq!(self.rec.check(node, &fire), None);
        self.rec.on(node, deps, gates, &fire, 0);
        self.rec.settle(0);
    }

    fn land(&mut self) -> usize {
        let msg = self.rec.finish();
        assert!(self.tape.takes(&msg));
        let mut got = self.tape.absorb(msg);
        let freed = got.freed.len();
        self.spare.append(&mut got.freed);
        freed
    }

    fn tick(&mut self, ts_ns: i64, val: f64) -> usize {
        self.at(ts_ns);
        self.on("N", &[], &[], &[1], Some(&[val]));
        self.land()
    }

    fn seal(&mut self) {
        self.tape.seal();
    }
}

/// `seek(0)`, then `step(1)` to a standstill: every position the tape is addressable at, in order.
fn walk(t: &mut Inner) -> Vec<usize> {
    let mut walk = vec![t.seek(0).tick];
    loop {
        let tick = t.step(1).tick;
        if tick == *walk.last().unwrap() {
            return walk;
        }
        walk.push(tick);
    }
}

#[test]
fn a_backwards_tick_leaves_the_series_ascending() {
    let mut rig = Rig::new(None, 8, 60_000);
    for min in [2, 3, 2, 4] {
        rig.tick(min * MINUTE, min as f64);
    }
    rig.seal();
    assert!(rig.tape.has_price_node());
    let day = rig.tape.day();
    let ts: Vec<i64> = day.series[0].points.iter().map(|p| p.ts_ms).collect();
    assert!(ts.windows(2).all(|w| w[0] < w[1]), "{ts:?}");
    assert_eq!(ts, vec![120_000, 180_000, 240_000]);
    // The backwards tick's value went to the newest point it is not after.
    assert_eq!(day.series[0].points[1].vals, bits(&[2.0]));
}

#[test]
fn a_dropped_tick_is_counted_rather_than_lost() {
    let mut rig = Rig::new(None, 8, 60_000);
    rig.rec = Recorder::new(Backpressure::Drop, 0);
    let stepped = QUEUE + 64;
    // The tape absorbs nothing while the queue fills, so it fills and stays full.
    let mut queue: VecDeque<TickMsg> = VecDeque::new();
    for i in 0..stepped as i64 {
        rig.at(i * MINUTE);
        rig.on("N", &[], &[], &[1], Some(&[i as f64]));
        let msg = rig.rec.finish();
        if queue.len() == QUEUE {
            rig.rec.refuse(msg);
        } else {
            queue.push_back(msg);
        }
    }
    for msg in queue {
        assert!(rig.tape.takes(&msg));
        rig.tape.absorb(msg);
    }
    rig.tape.tally_drops(rig.rec.dropped);
    rig.seal();
    let f = rig.tape.frame();
    assert!(f.dropped > 0, "the queue never filled, so this measured nothing");
    assert_eq!(f.dropped + f.total, stepped, "every stepped tick is either on the tape or counted");
    assert_eq!(f.dropped, 64);
}

#[test]
fn the_whole_run_stays_walkable_past_the_capacity() {
    let mut rig = Rig::new(None, 64, 60_000);
    for i in 0..5000 {
        rig.tick(i * MINUTE, i as f64);
    }
    rig.seal();
    let walk = walk(&mut rig.tape);
    assert_eq!(walk.first(), Some(&1), "the recording's first tick is addressable");
    assert_eq!(walk.last(), Some(&5000), "and so is its last: {walk:?}");
    assert!(walk.windows(2).all(|w| w[0] < w[1]), "no step stands still: {walk:?}");
    // The freshest stretch is kept whole, so stepping through it moves one tick at a time.
    assert!(walk.windows(2).rev().take(8).all(|w| w[1] - w[0] == 1), "{walk:?}");
}

#[test]
fn a_rare_node_keeps_its_fires_past_the_capacity() {
    const RARE: usize = 500;
    const TICKS: usize = 200_000;
    let mut rig = Rig::new(None, 4096, 60_000);
    for i in 0..TICKS {
        rig.at(i as i64 * MINUTE);
        rig.on("A", &[], &[], &[1], Some(&[i as f64]));
        let vals: Option<&[f64]> = if i % RARE == 0 { Some(&[1.0]) } else { None };
        rig.on("B", &["A"], &[false], &[1], vals);
        rig.land();
    }
    rig.seal();

    let t = &mut rig.tape;
    t.seek(0);
    let mut reached = vec![t.frame().tick - 1];
    loop {
        let at = t.step_until("B").tick - 1;
        if at == *reached.last().unwrap() {
            break;
        }
        reached.push(at);
    }
    let want: Vec<usize> = (0..TICKS).step_by(RARE).collect();
    assert_eq!(reached, want, "every one of B's {} fires is addressable", want.len());
}

#[test]
fn a_scan_that_finds_nothing_stays_put() {
    let mut rig = Rig::new(None, 64, 60_000);
    for i in 0..500 {
        rig.tick(i * MINUTE, i as f64);
    }
    rig.seal();

    let t = &mut rig.tape;
    let was = t.seek(300).tick;
    let f = t.step_until("Absent");
    assert_eq!(f.tick, was, "a search for a node the graph does not carry moved the cursor");
    assert!(!f.found, "and it reported as though it had reached one");
    // `N` fires every tick, so the one op that is a scan with nothing left to find is a scan started
    // from the last tick.
    t.seek(usize::MAX);
    let end = t.frame().tick;
    let f = t.step_until("N");
    assert_eq!(f.tick, end);
    assert!(!f.found && !f.pending, "a sealed tape with no hit is an answer, not a wait: {f:?}");
}

#[test]
fn a_saved_tape_reads_back_as_the_one_recorded() {
    let mut rig = Rig::new(Some("P"), 64, 60_000);
    for i in 0..5000 {
        rig.at(i * MINUTE);
        rig.on("P", &[], &[], &[5], Some(&[1.0, 2.0, 0.5, i as f64, 10.0]));
        rig.on("N", &["P"], &[false], &[1], Some(&[i as f64]));
        rig.land();
    }
    rig.seal();

    let file = rig.tape.to_file();
    assert!(file.agrees());
    let mut back = Inner::from_file(file);

    assert_eq!(back.topology(), rig.tape.topology());
    assert!(back.has_price_node() && rig.tape.has_price_node());
    let (was, is) = (rig.tape.day(), back.day());
    assert_eq!(is.price_node, was.price_node);
    assert_eq!(is.series, was.series);
    assert_eq!(walk(&mut back), walk(&mut rig.tape));
}

#[test]
fn a_file_that_cannot_be_walked_is_told() {
    let mut rig = Rig::new(None, 8, 60_000);
    for i in 0..20 {
        rig.tick(i * MINUTE, i as f64);
    }
    rig.seal();
    assert!(rig.tape.to_file().agrees());
    let mut file = rig.tape.to_file();
    file.ticks[1].abs = file.ticks[0].abs;
    assert!(!file.agrees(), "ids ascend");
    let mut file = rig.tape.to_file();
    file.cost.pop();
    assert!(!file.agrees(), "every node has a cost");
    let mut file = rig.tape.to_file();
    file.ticks[1].acts.ends[0].vals = 9;
    assert!(!file.agrees(), "what a node names is there");
    let mut file = rig.tape.to_file();
    file.ticks.last_mut().unwrap().abs = usize::MAX;
    assert!(!file.agrees(), "every tick can be numbered");
}

/// Nothing is recorded onto a file, so what only recording rests on is taken as it was written.
#[test]
fn a_file_is_taken_as_it_was_written() {
    let mut rig = Rig::new(None, 8, 60_000);
    for i in 0..20 {
        rig.tick(i * MINUTE, i as f64);
    }
    rig.seal();
    let want = walk(&mut rig.tape);
    for change in 0..8 {
        let mut file = rig.tape.to_file();
        match change {
            0 => file.ticks[0].ranks[0] = 65,
            1 => file.opened += 1,
            2 => file.ticks[1].acts.outs.push('x'),
            3 => file.keep.push(0),
            4 => file.fires.clear(),
            5 => file.capacity = 1,
            6 => file.bucket_ms = 0,
            _ => file.ticks[2].ranks.clear(),
        }
        assert!(file.agrees(), "{change}");
        assert_eq!(walk(&mut Inner::from_file(file)), want, "{change}");
    }
}

#[test]
fn a_full_buffer_reads_back_whole() {
    let mut rig = Rig::new(None, 64, 60_000);
    for i in 0..8 {
        rig.tick(i * MINUTE, i as f64);
    }
    rig.seal();
    let mut file = rig.tape.to_file();
    file.capacity = 8;
    assert!(file.agrees() && file.ticks.len() == file.capacity);
    let mut back = Inner::from_file(file);
    assert_eq!(walk(&mut back), vec![1, 2, 3, 4, 5, 6, 7, 8]);
    assert_eq!((back.frame().total, back.frame().gap), (8, 1));
}

/// A rank says a node fired on a tick whose act says it did not: what it shows is its own act.
#[test]
fn a_fire_listed_where_there_was_none_is_not_shown() {
    let mut rig = Rig::new(None, 64, 60_000);
    for i in 0..6 {
        rig.at(i * MINUTE);
        rig.on("A", &[], &[], &[1], Some(&[i as f64]));
        let vals: Option<&[f64]> = if i == 2 { Some(&[7.0]) } else { None };
        rig.on("B", &["A"], &[false], &[1], vals);
        rig.land();
    }
    rig.seal();
    let shown = |file| Inner::from_file(file).seek(6).activations[1].vals.clone();
    assert_eq!(shown(rig.tape.to_file()), Some(vec![Some(7.0f64.to_bits())]));
    let mut file = rig.tape.to_file();
    file.ticks[4].ranks[1] = 3;
    assert!(file.agrees());
    assert_eq!(shown(file), None);
}

#[test]
fn the_header_is_the_magic_and_the_schema() {
    assert_eq!(header(), b"EXECVIZT\x02\x00\x00\x00".to_vec());
    let mut framed = header();
    framed.extend_from_slice(b"payload");
    assert_eq!(read_header(&framed), Ok(12));
    assert_eq!(&framed[12..], b"payload");
    assert_eq!(read_header(b"EXECVI"), Err(FileError::Truncated));
    assert_eq!(read_header(b"NOTATAPE\x02\x00\x00\x00"), Err(FileError::NotATape));
    assert_eq!(read_header(b"EXECVIZT\x02\x00"), Err(FileError::Truncated));
    assert_eq!(read_header(b"EXECVIZT\x01\x00\x00\x00"), Err(FileError::Schema(1)));
    assert_eq!(read_header(b"EXECVIZT\x02\x01\x00\x00"), Err(FileError::Schema(258)));
}

#[test]
fn an_empty_tape_shows_nothing() {
    let mut t = Inner::new(None, 4, 60_000);
    assert!(t.topology().is_empty());
    let f = t.frame();
    assert_eq!((f.tick, f.total, f.gap, f.ts_ns, f.activations.len()), (0, 0, 1, 0, 0));
    assert!(f.found && !f.pending && !f.sealed);
    assert!(t.step(1).pending);
    assert!(t.seek(1).pending);
    assert!(!t.seek(0).pending);
    assert!(!t.seek_ts(5).pending);
    assert!(!t.step_until("N").found);
}

#[test]
fn the_head_is_held_back_until_the_seal() {
    let mut rig = Rig::new(None, 8, 60_000);
    rig.tick(0, 1.0);
    assert!(rig.tape.topology().is_empty(), "the only tick is still open");
    assert_eq!(rig.tape.frame().total, 0);
    rig.tick(MINUTE, 2.0);
    assert_eq!(rig.tape.topology().len(), 1);
    assert_eq!(rig.tape.frame().total, 1);
    let f = rig.tape.step(5);
    assert_eq!((f.tick, f.pending), (1, true));
    rig.seal();
    assert_eq!(rig.tape.frame().total, 2);
    let f = rig.tape.step(5);
    assert_eq!((f.tick, f.pending), (2, false));
    assert_eq!(f.ts_ns, MINUTE);
}

#[test]
fn a_growing_tape_parks_a_failed_scan_at_its_end() {
    let mut rig = Rig::new(None, 16, 60_000);
    for i in 0..5 {
        rig.at(i * MINUTE);
        rig.on("A", &[], &[], &[1], Some(&[0.0]));
        rig.on("B", &["A"], &[true], &[1], None);
        rig.land();
    }
    let t = &mut rig.tape;
    t.seek(1);
    let f = t.step_until("B");
    assert_eq!((f.tick, f.found, f.pending), (4, false, true));
    assert_eq!(t.topology()[1].gates, vec!["A".to_string()]);
}

#[test]
fn seeking_by_time_lands_on_the_newest_at_or_before() {
    let mut rig = Rig::new(None, 16, 60_000);
    for ts in [10, 20, 15, 30] {
        rig.tick(ts, ts as f64);
    }
    rig.seal();
    let t = &mut rig.tape;
    assert_eq!(t.seek_ts(17).tick, 3, "the woven tick is the newest at or before");
    assert_eq!(t.seek_ts(25).tick, 3);
    assert_eq!(t.seek_ts(9).tick, 1, "before the run is its front");
    assert_eq!(t.seek_ts(1000).tick, 4);
}

#[test]
fn the_open_tick_does_not_pull_a_seek_by_time_past_it() {
    let mut rig = Rig::new(None, 16, 60_000);
    for ts in [10, 30, 20] {
        rig.tick(ts, ts as f64);
    }
    // The tick at 20 is still open, and the one at 30 is after the time asked for.
    let f = rig.tape.seek_ts(25);
    assert_eq!((f.tick, f.ts_ns, f.pending), (1, 10, true));
    rig.tick(40, 40.0);
    let f = rig.tape.seek_ts(25);
    assert_eq!((f.tick, f.ts_ns, f.pending), (3, 20, false));
}

#[test]
fn a_quiet_node_shows_its_last_value() {
    let mut rig = Rig::new(None, 16, 60_000);
    for i in 0..4 {
        rig.at(i * MINUTE);
        rig.on("A", &[], &[], &[1], Some(&[i as f64]));
        let vals: Option<&[f64]> = if i == 1 { Some(&[7.5]) } else { None };
        rig.on("B", &["A"], &[false], &[1], vals);
        rig.land();
    }
    rig.seal();
    let t = &mut rig.tape;
    let f = t.seek(1);
    assert_eq!(f.activations[1].vals, None, "B has not fired yet");
    let f = t.seek(4);
    assert!(!f.activations[1].fired && f.activations[1].ran);
    assert_eq!(f.activations[1].vals, Some(vec![Some(7.5f64.to_bits())]));
    assert_eq!(f.activations[1].out, "NaN");
}

#[test]
fn slots_that_are_not_finite_are_emptied() {
    let mut rig = Rig::new(None, 16, 60_000);
    let jac = bits(&[f64::NAN, f64::INFINITY, 2.0]);
    let vals = bits(&[f64::NAN, f64::INFINITY, 3.0]);
    let cols = bits(&[f64::NAN, 1.0]);
    rig.at(0);
    let mut fire = rig.kit.fire(&[3], Some(&vals));
    fire.report.jac = Some(&jac);
    fire.report.exact_block = Some((&cols, &[2]));
    fire.report.exact = true;
    assert_eq!(rig.rec.check("N", &fire), None);
    rig.rec.on("N", &[], &[], &fire, 0);
    rig.land();
    rig.seal();
    let a = &rig.tape.frame().activations[0];
    assert_eq!(a.vals, Some(vec![None, None, Some(3.0f64.to_bits())]));
    assert_eq!(a.jac, Some(vec![None, Some(f64::INFINITY.to_bits()), Some(2.0f64.to_bits())]));
    let block = a.exact_block.as_ref().unwrap();
    assert_eq!(block.cols, vec![None, Some(1.0f64.to_bits())]);
    assert_eq!(block.widths, vec![2]);
    assert!(a.exact);
}

#[test]
fn a_change_is_a_fire_with_another_output() {
    let mut rec = Recorder::new(Backpressure::Block, 0);
    let mut tape = Inner::new(None, 16, 60_000);
    let kit = Kit::new();
    let one = bits(&[1.0]);
    for (i, out) in ["a", "a", "b", "b", "c"].iter().enumerate() {
        rec.at(i as i64, 0, None);
        let mut fire = kit.fire(&[1], Some(&one));
        fire.report.glance = out;
        rec.on("N", &[], &[], &fire, 0);
        tape.absorb(rec.finish());
    }
    tape.seal();
    tape.seek(1);
    let nodes = vec!["N".to_string()];
    let f = tape.step_until_change(&nodes);
    assert_eq!((f.tick, f.found), (3, true));
    assert_eq!(tape.step_until_change(&nodes).tick, 5);
    let f = tape.step_until_change(&nodes);
    assert_eq!((f.tick, f.found), (5, false));
    let f = tape.step_until_change(&["Other".to_string()]);
    assert!(!f.found);
}

#[test]
fn a_pass_frees_between_a_quarter_and_a_half() {
    let mut rig = Rig::new(None, 64, 60_000);
    for i in 0..1000 {
        let freed = rig.tick(i * MINUTE, i as f64);
        assert!(freed == 0 || (16..=32).contains(&freed), "{freed}");
        assert!(rig.tape.ticks.len() < 64, "the tick that fills the buffer makes room");
    }
    assert_eq!(recycle_depth(64), 32);
}

#[test]
fn a_batch_is_clamped_to_what_a_pass_leaves() {
    assert_eq!(batch_cap(4096), 64);
    assert_eq!(batch_cap(100), 25);
    assert_eq!(batch_cap(4), 1);
}

#[test]
fn a_batch_is_its_ticks_one_by_one() {
    let mut one = Rig::new(None, 8, 60_000);
    let mut all = Rig::new(None, 8, 60_000);
    let mut batch: VecDeque<TickMsg> = VecDeque::new();
    for i in 0..20 {
        one.tick(i * MINUTE, i as f64);
        all.at(i * MINUTE);
        all.on("N", &[], &[], &[1], Some(&[i as f64]));
        batch.push_back(all.rec.finish());
    }
    all.tape.absorb_all(&mut batch);
    assert!(batch.is_empty());
    one.seal();
    all.seal();
    assert_eq!(walk(&mut one.tape), walk(&mut all.tape));
    assert_eq!(one.tape.topology(), all.tape.topology());
    assert_eq!(one.tape.keep, all.tape.keep);
}

#[test]
fn gaps_tile_a_thinned_run() {
    let mut rig = Rig::new(None, 16, 60_000);
    for i in 0..300 {
        rig.tick(i * MINUTE, i as f64);
    }
    rig.seal();
    let t = &mut rig.tape;
    let mut f = t.seek(0);
    let mut covered = f.gap;
    assert_eq!(f.tick, f.gap);
    loop {
        let next = t.step(1);
        if next.tick == f.tick {
            break;
        }
        assert_eq!(next.tick - next.gap, f.tick);
        covered += next.gap;
        f = next;
    }
    assert_eq!(covered, 300);
}

#[test]
fn reports_that_cannot_be_recorded_are_refused() {
    let kit = Kit::new();
    let mut rec = Recorder::new(Backpressure::Block, 0);
    let one = bits(&[1.0]);
    let none: Vec<u64> = vec![];
    rec.at(0, 0, None);
    assert_eq!(rec.check("N", &kit.fire(&[0], Some(&one))), Some(Refusal::Flat));
    assert_eq!(rec.check("N", &kit.fire(&[2, 0, 3], Some(&one))), Some(Refusal::Flat));
    let mut hollow = kit.fire(&[1], Some(&one));
    hollow.report.jac = Some(&none);
    assert_eq!(rec.check("N", &hollow), Some(Refusal::EmptyJacobian));
    let ok = kit.fire(&[1], Some(&one));
    assert_eq!(rec.check("N", &ok), None);
    rec.on("N", &[], &[], &ok, 0);
    rec.finish();
    rec.at(1, 0, None);
    assert_eq!(rec.check("M", &ok), Some(Refusal::Shifted));
    assert_eq!(rec.check("N", &ok), None);
}

#[test]
fn one_tick_in_a_stride_is_clocked() {
    let kit = Kit::new();
    let mut rec = Recorder::new(Backpressure::Block, 0);
    let one = bits(&[1.0]);
    for i in 0..130u64 {
        assert_eq!(rec.clocks_next(), i % 64 == 0);
        rec.at(i as i64, 1000, None);
        rec.on("A", &[], &[], &kit.fire(&[1], Some(&one)), 1100);
        rec.settle(1500);
        rec.on("B", &["A"], &[false], &kit.fire(&[1], Some(&one)), 1800);
        rec.settle(1900);
        let msg = rec.finish();
        if i % 64 == 0 {
            // What the recording itself took is charged to nobody.
            assert_eq!(msg.spans, Some(vec![100, 300]));
        } else {
            assert_eq!(msg.spans, None);
        }
    }
}

#[test]
fn a_refused_tick_keeps_what_it_owes() {
    let kit = Kit::new();
    let mut rec = Recorder::new(Backpressure::Drop, 0);
    let one = bits(&[1.0]);
    rec.at(0, 0, None);
    rec.on("A", &[], &[], &kit.fire(&[1], Some(&one)), 0);
    let msg = rec.finish();
    rec.refuse(msg);
    assert_eq!(rec.dropped, 1);
    assert!(!rec.wants_buffer(), "the refused tick's buffer is there to be reused");
    rec.at(1, 0, None);
    rec.on("A", &[], &[], &kit.fire(&[1], Some(&one)), 0);
    rec.on("B", &["A"], &[false], &kit.fire(&[1], Some(&one)), 0);
    let msg = rec.finish();
    let meta = msg.meta.unwrap();
    assert_eq!(meta.iter().map(|m| m.node).collect::<Vec<_>>(), vec!["A", "B"]);
}

#[test]
fn block_minima_reach_the_frame_once_priced() {
    let kit = Kit::new();
    let mut rec = Recorder::new(Backpressure::Block, 0);
    let mut tape = Inner::new(None, 4096, 60_000);
    let one = bits(&[1.0]);
    let mut closed = Vec::new();
    for i in 0..64 * 16u64 {
        rec.at(i as i64, 0, None);
        rec.on("A", &[], &[], &kit.fire(&[1], Some(&one)), 500 + i);
        closed.append(&mut tape.absorb(rec.finish()).closed);
    }
    assert_eq!(closed, vec![(0, 500)], "one block closed, and on its least sample");
    tape.seal();
    assert_eq!(tape.topology()[0].cost_ns, None);
    tape.price(0, 500.0f64.to_bits());
    assert_eq!(tape.topology()[0].cost_ns, Some(500.0f64.to_bits()));
    assert_eq!(tape.frame().activations[0].cost_ns, Some(500.0f64.to_bits()));
}

#[test]
fn buffers_are_not_charted_and_the_price_node_is_checked() {
    let mut rig = Rig::new(Some("P"), 16, 60_000);
    for i in 0..3 {
        rig.at(i * MINUTE);
        rig.on("x::P", &[], &[], &[5], Some(&[1.0, 2.0, 0.5, i as f64, 10.0]));
        rig.on("Buffer<x::P, 3>", &["x::P"], &[false], &[5], Some(&[1.0; 5]));
        rig.land();
    }
    assert!(rig.tape.has_price_node());
    let day = rig.tape.day();
    assert_eq!(day.series.iter().map(|s| s.node.as_str()).collect::<Vec<_>>(), vec!["P"]);
    assert_eq!(rig.tape.topology()[1].node, "Buffer<P, 3>");

    let mut wrong = Rig::new(Some("Absent"), 16, 60_000);
    assert!(wrong.tape.has_price_node(), "nothing has been stepped yet");
    wrong.tick(0, 1.0);
    assert_eq!(wrong.tape.price_node_fault(), None);
    wrong.tick(1, 1.0);
    assert!(!wrong.tape.has_price_node());
    assert_eq!(wrong.tape.price_node_fault(), Some(PriceFault::Unknown));
    let mut flat = Rig::new(Some("N"), 16, 60_000);
    flat.tick(0, 1.0);
    assert!(!flat.tape.has_price_node(), "a price node is an OHLCV bar");
    assert_eq!(flat.tape.price_node_fault(), Some(PriceFault::NotABar));
}

#[test]
fn footprints_cover_what_is_held() {
    let mut rig = Rig::new(None, 16, 60_000);
    for i in 0..5 {
        rig.tick(i * MINUTE, i as f64);
    }
    let fs = rig.tape.footprints();
    assert_eq!(fs.len(), 5);
    let mut all: u128 = 0;
    for f in &fs {
        assert!(f.outs >= 3 && f.vals >= 1 && f.exact >= 1 && f.ran >= 1 && f.ends >= 1 && f.ranks >= 1);
        let want = 100
            + f.outs as u128
            + 8 * (f.vals as u128 + f.jac as u128 + f.block as u128)
            + 8 * f.widths as u128
            + f.exact as u128
            + f.ran as u128
            + 20 * f.ends as u128
            + f.ranks as u128;
        assert_eq!(f.bytes(100, 8, 20), want);
        all += want;
    }
    assert_eq!(total_bytes(&fs, 100, 8, 20), Some(all));
    assert_eq!(total_bytes(&[], 100, 8, 20), Some(0));
    let f = Footprint { outs: 1, vals: 2, jac: 3, block: 4, widths: 5, exact: 6, ran: 7, ends: 8, ranks: 9 };
    assert_eq!(f.bytes(100, 8, 20), 100 + 1 + 8 * (2 + 3 + 4) + 8 * 5 + 6 + 7 + 20 * 8 + 9);
    assert_eq!(total_bytes(&[f, f], 100, 8, 20), Some(2 * f.bytes(100, 8, 20)));
}

#[test]
fn the_buffer_is_never_left_full() {
    for capacity in [4, 5, 7, 16, 63] {
        let mut rig = Rig::new(None, capacity, 60_000);
        for i in 0..400 {
            let held = rig.tape.ticks.len();
            let freed = rig.tick(i * MINUTE, i as f64);
            assert!(rig.tape.ticks.len() < capacity);
            assert_eq!(freed > 0, held + 1 == capacity, "a pass is made by the tick that fills the buffer");
            assert!(freed <= capacity - capacity / 2);
        }
    }
    // At an odd capacity a pass may free one more than the way back holds.
    assert_eq!((recycle_depth(5), 5 - 5 / 2), (2, 3));
}

#[test]
fn a_sealed_tape_takes_no_more() {
    let mut rig = Rig::new(None, 8, 60_000);
    rig.tick(0, 1.0);
    rig.at(MINUTE);
    rig.on("N", &[], &[], &[1], Some(&[2.0]));
    let msg = rig.rec.finish();
    assert!(rig.tape.takes(&msg));
    rig.seal();
    assert!(!rig.tape.takes(&msg));
    let mut batch: VecDeque<TickMsg> = VecDeque::new();
    batch.push_back(msg);
    rig.tape.absorb_all(&mut batch);
    assert_eq!((batch.len(), rig.tape.frame().total), (1, 1));
}

#[test]
fn what_is_written_of_an_open_recording_is_what_is_addressable() {
    let mut rig = Rig::new(None, 8, 60_000);
    assert!(rig.tape.to_file().agrees() && rig.tape.to_file().ticks.is_empty());
    for i in 0..30 {
        rig.tick(i * MINUTE, i as f64);
        let file = rig.tape.to_file();
        assert!(file.agrees());
        assert_eq!((file.opened, file.ticks.len()), (i as usize, rig.tape.ticks.len() - 1));
        assert_eq!(file.fires, vec![i as usize + 1], "the open tick's fire is counted already");
        let mut back = Inner::from_file(file);
        let (was, is) = (rig.tape.frame(), back.frame());
        assert_eq!((is.tick, is.total, is.gap, is.ts_ns), (was.tick, was.total, was.gap, was.ts_ns));
        assert_eq!(is.activations, was.activations);
        assert!(is.sealed && !was.sealed);
        assert_eq!(back.topology(), rig.tape.topology());
        assert_eq!(back.seek(usize::MAX).tick, i as usize);
    }
}

#[test]
fn a_price_node_may_be_named_by_its_path() {
    let mut rig = Rig::new(Some("spl::nodes::Bar1m"), 8, 60_000);
    for i in 0..3 {
        rig.at(i * MINUTE);
        rig.on("spl::nodes::Bar1m", &[], &[], &[5], Some(&[1.0, 2.0, 0.5, i as f64, 10.0]));
        rig.land();
    }
    assert!(rig.tape.has_price_node());
    let day = rig.tape.day();
    assert_eq!(day.price_node.as_deref(), Some("Bar1m"));
    assert_eq!(day.series[0].node, "Bar1m");
}

/// The last tick of a run of two nodes, read once the recording is over.
fn last_frame(a: Option<&[f64]>, b: Option<&[f64]>) -> exec_viz::api_types::ActivationFrame {
    let mut rig = Rig::new(None, 8, 60_000);
    for i in 0..7 {
        rig.at(i * MINUTE);
        rig.on("x::A", &[], &[], &[1], Some(&[i as f64]));
        rig.on("B", &["x::A"], &[false], &[1], if i == 2 { Some(&[7.0]) } else { None });
        rig.land();
    }
    rig.at(9 * MINUTE);
    rig.on("x::A", &[], &[], &[1], a);
    rig.on("B", &["x::A"], &[false], &[1], b);
    rig.land();
    rig.seal();
    rig.tape.seek(usize::MAX)
}

#[test]
fn a_report_is_read_back_under_its_name() {
    let f = last_frame(Some(&[4.5]), None);
    assert_eq!((f.tick, f.total, f.ts_ns), (8, 8, 9 * MINUTE));
    let names: Vec<&str> = f.activations.iter().map(|a| a.node.as_str()).collect();
    assert_eq!(names, vec!["A", "B"]);
    assert!(f.activations[0].fired && f.activations[0].ran && !f.activations[1].fired);
    assert_eq!(f.activations[0].vals, Some(vec![Some(4.5f64.to_bits())]));
    // A fire shows on its own node alone.
    let other = last_frame(None, None);
    assert_eq!(other.activations[1], f.activations[1]);
    assert!(!other.activations[0].fired);
    let both = last_frame(Some(&[4.5]), Some(&[1.0]));
    assert_eq!(both.activations[0], f.activations[0]);
}

#[test]
fn a_graph_once_shown_changes_in_cost_alone() {
    let mut rig = Rig::new(None, 8, 60_000);
    let mut shown = vec![];
    for i in 0..20 {
        rig.at(i * MINUTE);
        rig.on("x::A", &[], &[], &[1], Some(&[i as f64]));
        rig.on("B", &["x::A"], &[true], &[1], None);
        rig.land();
        assert_eq!(rig.tape.topology().is_empty(), rig.tape.frame().total == 0);
        if i == 10 {
            rig.tape.price(0, 5.0f64.to_bits());
        }
        shown.push(rig.tape.topology());
    }
    rig.seal();
    shown.push(rig.tape.topology());
    assert!(shown[0].is_empty() && shown[1].len() == 2);
    for t in &shown[1..] {
        let mut bare = t.clone();
        for n in &mut bare {
            n.cost_ns = None;
        }
        assert_eq!(bare, shown[1]);
    }
    assert_eq!(shown[20][0].cost_ns, Some(5.0f64.to_bits()));
}

#[test]
fn stamps_are_multiples_of_the_sample_period() {
    let mut rig = Rig::new(None, 8, 7_000);
    for i in 0..50i64 {
        rig.tick((i * 3_333 - 40_000) * 1_000_000, i as f64);
    }
    rig.seal();
    assert!(rig.tape.day().series[0].points.iter().all(|p| p.ts_ms.rem_euclid(7_000) == 0));
}

#[test]
fn a_pass_that_fits_raises_no_exponent() {
    // One node, room for a backbone of four: until more than four of its fires are old, nothing is cut.
    let mut rig = Rig::new(None, 16, 60_000);
    for i in 0..64 {
        rig.at(i * MINUTE);
        rig.on("A", &[], &[], &[1], if i % 16 == 0 { Some(&[1.0]) } else { None });
        rig.land();
    }
    assert_eq!(rig.tape.keep, vec![0]);
    for k in 0..4 {
        assert!(rig.tape.ticks.iter().any(|t| t.abs == 16 * k));
    }
}

/// What is timed is the span before a report and not the recording of it: a recorder charging its own
/// work forward would read every node alike.
#[test]
fn a_slow_step_is_charged_to_the_node_that_took_it() {
    let mut rig = Rig::new(None, 4096, 60_000);
    let mut now: u64 = 0;
    let mut least: Vec<Vec<u64>> = vec![vec![], vec![]];
    // A few blocks' worth of clocked ticks, which is what it takes for one to close at all.
    for i in 0..TICK_STRIDE * 32 {
        let zero = bits(&[0.0]);
        let one = bits(&[1.0]);
        rig.rec.at(i as i64 * MINUTE, now, None);
        let fast = rig.kit.fire(&[1], Some(&zero));
        now += 200;
        assert_eq!(rig.rec.check("Fast", &fast), None);
        rig.rec.on("Fast", &[], &[], &fast, now);
        // The recording itself takes its time, and nobody is charged for it.
        now += 70_000;
        rig.rec.settle(now);
        let slow = rig.kit.fire(&[1], Some(&one));
        now += 100_000;
        assert_eq!(rig.rec.check("Slow", &slow), None);
        rig.rec.on("Slow", &["Fast"], &[false], &slow, now);
        now += 70_000;
        rig.rec.settle(now);
        let msg = rig.rec.finish();
        assert!(rig.tape.takes(&msg));
        for (node, ns) in rig.tape.absorb(msg).closed {
            least[node].push(ns);
            rig.tape.price(node, (ns as f64).to_bits());
        }
    }
    rig.seal();
    assert_eq!(least[0], vec![200, 200]);
    assert_eq!(least[1], vec![100_000, 100_000]);
    let cost: Vec<f64> = rig.tape.topology().iter().map(|n| f64::from_bits(n.cost_ns.unwrap())).collect();
    assert!(cost[1] > 50_000.0, "the slept step reads as {}ns", cost[1]);
    assert!(cost[0] * 4.0 < cost[1], "the fast step reads as {}ns next to {}ns", cost[0], cost[1]);
}

#[test]
fn a_batch_stops_at_a_tick_that_clocks_too_few() {
    let mut rig = Rig::new(None, 8, 60_000);
    let mut batch: VecDeque<TickMsg> = VecDeque::new();
    for i in 0..3 {
        rig.at(i * MINUTE);
        rig.on("N", &[], &[], &[1], Some(&[i as f64]));
        let mut msg = rig.rec.finish();
        if i == 1 {
            msg.spans = Some(vec![]);
        }
        batch.push_back(msg);
    }
    rig.tape.absorb_all(&mut batch);
    assert_eq!(batch.len(), 2);
    assert_eq!(rig.tape.opened, 1);
    assert!(!rig.tape.takes(&batch[0]));
}

#[test]
fn a_series_keeps_every_bucket() {
    let mut rig = Rig::new(None, 8, 60_000);
    for i in 0..1000 {
        rig.tick(i * MINUTE / 2, i as f64);
    }
    rig.seal();
    let points = &rig.tape.day().series[0].points;
    assert_eq!(points.len(), 500);
    assert_eq!(points[0].ts_ms, 0);
    assert_eq!(points[499].ts_ms, 499 * 60_000);
    // The last fired value of each bucket wins.
    assert_eq!(points[0].vals, bits(&[1.0]));
    assert_eq!(points[499].vals, bits(&[999.0]));
}

#[test]
fn gates_are_named_among_the_deps() {
    let mut rig = Rig::new(None, 8, 60_000);
    rig.at(0);
    rig.on("nodes::A", &[], &[], &[1], Some(&[1.0]));
    rig.on("nodes::G", &[], &[], &[1], Some(&[1.0]));
    rig.on("nodes::B", &["nodes::A", "nodes::G"], &[false, true], &[1], Some(&[1.0]));
    rig.land();
    rig.seal();
    let t = rig.tape.topology();
    assert_eq!(t[2].node, "B");
    assert_eq!(t[2].deps, vec!["A".to_string(), "G".to_string()]);
    assert_eq!(t[2].gates, vec!["G".to_string()]);
    assert!(t[0].gates.is_empty());
    assert_eq!(rig.tape.day().series[2].gates, t[2].gates);
}

#[test]
fn a_search_left_waiting_resumes_where_it_got_to() {
    let mut rig = Rig::new(None, 64, 60_000);
    for i in 0..6 {
        rig.at(i * MINUTE);
        rig.on("A", &[], &[], &[1], Some(&[i as f64]));
        let vals: Option<&[f64]> = if i == 4 { Some(&[1.0]) } else { None };
        rig.on("B", &["A"], &[false], &[1], vals);
        rig.land();
        if i == 2 {
            // Only the first two are addressable, and `B` is on neither.
            let f = rig.tape.step_until("B");
            assert!(f.pending && !f.found);
            assert_eq!(f.tick, 2);
        }
    }
    let f = rig.tape.step_until("B");
    assert!(f.found && !f.pending);
    assert_eq!(f.tick, 5);
}

#[test]
fn a_step_left_waiting_advances_nothing() {
    let mut rig = Rig::new(None, 64, 60_000);
    for i in 0..4 {
        rig.tick(i * MINUTE, i as f64);
    }
    rig.tape.seek(usize::MAX);
    let at = rig.tape.frame().tick;
    let f = rig.tape.step(1);
    assert!(f.pending);
    assert_eq!(f.tick, at);
}

#[test]
fn a_seek_does_not_care_where_it_starts() {
    let mut rig = Rig::new(None, 16, 60_000);
    for i in 0..300 {
        rig.tick(i * MINUTE, i as f64);
    }
    rig.seal();
    rig.tape.seek(0);
    let from_start = rig.tape.seek(123).tick;
    rig.tape.seek(usize::MAX);
    assert_eq!(rig.tape.seek(123).tick, from_start);
}

/// A mix of nodes over two days, from one that fires on every tick to one that fires twice a day: how
/// many ticks stay, and how many of each node's fires are still reachable.
fn reach(capacity: usize) -> (usize, Vec<usize>) {
    const DAY: usize = 159_210;
    const MIN: usize = DAY / 1440;
    const NODES: [(&str, usize, &[usize]); 6] = [
        ("Book", 1, &[4]),
        ("Screen", 100, &[3]),
        ("Bar:1m", MIN, &[5]),
        ("Bar:5m", 5 * MIN, &[5]),
        ("Bar:1h", 60 * MIN, &[5]),
        ("Cap", DAY / 2, &[1]),
    ];
    let vals = [1.0, 2.0, 3.0, 4.0, 5.0];
    let mut rig = Rig::new(None, capacity, 60_000);
    for i in 0..DAY * 2 {
        rig.at(i as i64 * 1_000_000_000);
        for (node, period, dims) in NODES {
            let fired: Option<&[f64]> = if i % period == 0 { Some(&vals[..dims[0]]) } else { None };
            rig.on(node, &[], &[], dims, fired);
        }
        rig.land();
    }
    rig.seal();
    let t = &mut rig.tape;
    let mut out = Vec::new();
    for (node, _, _) in NODES {
        let start = t.seek(0);
        let mut hits = usize::from(start.activations.iter().any(|a| a.node == node && a.fired));
        while t.step_until(node).found {
            hits += 1;
        }
        out.push(hits);
    }
    (t.ticks.len(), out)
}

#[test]
fn a_small_tape_keeps_the_rare_fires() {
    assert_eq!(reach(2048), (1767, vec![1767, 248, 229, 147, 49, 4]));
}

#[test]
fn a_larger_tape_reaches_more() {
    assert_eq!(reach(8192), (6316, vec![6316, 689, 897, 579, 49, 4]));
}

#[test]
fn a_tape_in_use_keeps_every_five_minute_bar() {
    assert_eq!(reach(20_000), (16_395, vec![16_395, 1793, 1781, 579, 49, 4]));
}

#[test]
fn a_deep_tape_keeps_all_but_the_flood() {
    assert_eq!(reach(65_536), (61_059, vec![61_059, 3185, 2895, 579, 49, 4]));
}

/// Ten nodes and room for a backbone of four: all of them first fire on one tick, and that is enough
/// for it to stay.
#[test]
fn first_fires_that_share_a_tick_stay_together() {
    const NAMES: [&str; 10] = ["A", "B", "C", "D", "E", "F", "G", "H", "I", "J"];
    let mut rig = Rig::new(None, 16, 60_000);
    for i in 0..500 {
        rig.at(i * MINUTE);
        for name in NAMES {
            rig.on(name, &[], &[], &[1], Some(&[i as f64]));
        }
        rig.land();
    }
    rig.seal();
    assert_eq!(rig.tape.seek(0).tick, 1);
    assert!(rig.tape.keep.iter().all(|k| *k < 64));
}

/// Two nodes that first fire on two ticks, and room for a backbone of one: one of the two goes.
#[test]
fn first_fires_past_the_backbone_are_cut() {
    let mut rig = Rig::new(None, 4, 60_000);
    for i in 0..40 {
        rig.at(i * MINUTE);
        let a: Option<&[f64]> = if i == 0 { Some(&[1.0]) } else { None };
        let b: Option<&[f64]> = if i == 1 { Some(&[1.0]) } else { None };
        rig.on("A", &[], &[], &[1], a);
        rig.on("B", &[], &[], &[1], b);
        rig.land();
    }
    rig.seal();
    let old = rig.tape.ticks.iter().filter(|t| t.abs < 2).count();
    assert_eq!(old, 1);
}

/// Fifteen ticks of a node that fires on each, and room for a backbone of four: every other one of the
/// seven before the whole stretch goes.
#[test]
fn a_pass_raises_no_more_than_it_has_to() {
    let mut rig = Rig::new(None, 16, 60_000);
    for i in 0..10 {
        rig.tick(i * MINUTE, i as f64);
    }
    assert!(rig.tape.thin().is_empty(), "two ticks before the whole stretch fit as they are");
    assert_eq!((rig.tape.keep.clone(), rig.tape.ticks.len()), (vec![0], 10));
    for i in 10..15 {
        rig.tick(i * MINUTE, i as f64);
    }
    assert_eq!(rig.tape.thin().len(), 3);
    assert_eq!(rig.tape.keep, vec![1]);
    let left: Vec<usize> = rig.tape.ticks.iter().map(|t| t.abs).collect();
    assert_eq!(left, vec![0, 2, 4, 6, 7, 8, 9, 10, 11, 12, 13, 14]);
    assert!(rig.tape.thin().is_empty(), "what fits is left alone");
    assert_eq!(rig.tape.keep, vec![1]);
}

/// Ten nodes that each first fire on a tick of their own, and room for a backbone of four: only a pass
/// could take any of them, and there is none.
#[test]
fn first_fires_stay_until_a_pass() {
    const NAMES: [&str; 10] = ["A", "B", "C", "D", "E", "F", "G", "H", "I", "J"];
    let mut rig = Rig::new(None, 16, 60_000);
    for i in 0..15 {
        rig.at(i * MINUTE);
        for (k, name) in NAMES.into_iter().enumerate() {
            let vals: Option<&[f64]> = if i as usize == k { Some(&[1.0]) } else { None };
            rig.on(name, &[], &[], &[1], vals);
        }
        assert_eq!(rig.land(), 0);
    }
    rig.seal();
    assert_eq!(walk(&mut rig.tape), (1..=15).collect::<Vec<usize>>());
}
