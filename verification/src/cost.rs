//! What one node's step costs, off the observer's own clock.
//!
//! Nodes report in step order, so the span between one node's exit and the next one's entry is that
//! next node's step. Only one tick in [`TICK_STRIDE`] is clocked, and a clocked tick clocks every
//! node in it.
//!
//! Samples are heavy right-tailed: a step preempted by the scheduler measures the scheduler. So what
//! the estimate follows is the minimum of each block of [`BLOCK`] samples.
use vstd::prelude::*;

use crate::floats::Bits;

verus! {

/// Samples per block minimum: enough that a block usually contains an unpreempted step, few enough
/// that a cost changing mid-run is still visible within a few hundred ticks.
pub const BLOCK: usize = 16;

/// Ticks between clocked ticks.
pub const TICK_STRIDE: usize = 64;

/// One node's cost: the block being filled, and the estimate over the blocks closed so far.
#[derive(Clone, Copy, Debug, PartialEq, Eq)]
pub struct Cost {
    pub block_n: usize,
    pub block_min: u64,
    /// Nanoseconds per step, `None` until the first block closes: the raw first sample would report
    /// the scheduler.
    pub ns: Option<Bits>,
}

impl DeepView for Cost {
    type V = Cost;

    open spec fn deep_view(&self) -> Cost {
        *self
    }
}

/// The smaller of two.
pub open spec fn lesser(a: u64, b: u64) -> u64 {
    if b < a {
        b
    } else {
        a
    }
}

impl Cost {
    /// A block is closed as soon as it is full.
    pub open spec fn wf(self) -> bool {
        self.block_n < BLOCK
    }

    /// Before any sample.
    pub open spec fn fresh() -> Cost {
        Cost { block_n: 0, block_min: 0, ns: None }
    }

    /// The smallest sample of the block, `ns` counted in.
    pub open spec fn floor(self, ns: u64) -> u64 {
        if self.block_n == 0 {
            ns
        } else {
            lesser(self.block_min, ns)
        }
    }

    /// The sample `ns` closes the block.
    pub open spec fn closes(self) -> bool {
        self.block_n + 1 >= BLOCK
    }

    /// The cost with `ns` counted in.
    pub open spec fn sampled(self, ns: u64) -> Cost {
        Cost {
            block_n: if self.closes() {
                0
            } else {
                (self.block_n + 1) as usize
            },
            block_min: self.floor(ns),
            ns: self.ns,
        }
    }

    /// No samples yet.
    pub fn new() -> (r: Cost)
        ensures
            r == Cost::fresh(),
            r.wf(),
    {
        Cost { block_n: 0, block_min: 0, ns: None }
    }

    /// Counts a sample in, and hands back the block's minimum where this one closed it.
    pub fn sample(&mut self, ns: u64) -> (r: Option<u64>)
        requires
            old(self).wf(),
        ensures
            final(self).wf(),
            *final(self) == old(self).sampled(ns),
            r == if old(self).closes() {
                Some(old(self).floor(ns))
            } else {
                None
            },
    {
        self.block_min = if self.block_n == 0 || ns < self.block_min {
            ns
        } else {
            self.block_min
        };
        self.block_n = self.block_n + 1;
        if self.block_n < BLOCK {
            return None;
        }
        self.block_n = 0;
        Some(self.block_min)
    }
}

/// The step-order clock: `mark` closes the span that ended here and opens the next one.
#[derive(Clone, Copy, Debug, PartialEq, Eq)]
pub struct Clock {
    pub at_ns: u64,
}

impl Clock {
    /// A clock started at `now_ns`.
    pub fn new(now_ns: u64) -> (r: Clock)
        ensures
            r.at_ns == now_ns,
    {
        Clock { at_ns: now_ns }
    }

    /// Nanoseconds since the last `mark`, and restarts; a clock that ran backwards reads zero. Called
    /// on entry to a report for the span the node just spent stepping, and on exit so the recording's
    /// own work is not charged to the next node.
    pub fn mark(&mut self, now_ns: u64) -> (ns: u64)
        ensures
            final(self).at_ns == now_ns,
            ns == if now_ns >= old(self).at_ns {
                now_ns - old(self).at_ns
            } else {
                0
            },
    {
        let ns: u64 = now_ns.saturating_sub(self.at_ns);
        self.at_ns = now_ns;
        ns
    }
}

/// The cost with every sample of `xs` counted in, in order.
pub open spec fn sampled_all(c: Cost, xs: Seq<u64>) -> Cost
    decreases xs.len(),
{
    if xs.len() == 0 {
        c
    } else {
        sampled_all(c, xs.drop_last()).sampled(xs.last())
    }
}

/// A block closes on its [`BLOCK`]th sample, and what it closes on is the least of them: a preempted
/// step in the block leaves the reading where it was.
pub proof fn a_block_reads_its_floor(c: Cost, xs: Seq<u64>, k: int)
    requires
        c.wf(),
        c.block_n == 0,
        0 < xs.len() <= BLOCK,
        0 <= k < xs.len(),
    ensures
        xs.len() < BLOCK ==> sampled_all(c, xs).block_n == xs.len(),
        xs.len() == BLOCK ==> sampled_all(c, xs).block_n == 0,
        sampled_all(c, xs).block_min <= xs[k],
        xs.contains(sampled_all(c, xs).block_min),
        sampled_all(c, xs).ns == c.ns,
    decreases xs.len(),
{
    let d = xs.drop_last();
    let n = xs.len() as int;
    if d.len() > 0 {
        a_block_reads_its_floor(c, d, 0);
        if k < d.len() {
            a_block_reads_its_floor(c, d, k);
            assert(d[k] == xs[k]);
        }
        let m = sampled_all(c, d).block_min;
        let j = choose|j: int| 0 <= j < d.len() && d[j] == m;
        assert(xs[j] == m);
        assert(xs[n - 1] == xs.last());
    } else {
        assert(d =~= Seq::<u64>::empty());
        assert(xs[0] == xs.last());
    }
}

/// The minima of the blocks that the samples `xs` close, in order.
pub open spec fn minima(c: Cost, xs: Seq<u64>) -> Seq<u64>
    decreases xs.len(),
{
    if xs.len() == 0 {
        Seq::empty()
    } else {
        let r = minima(c, xs.drop_last());
        let b = sampled_all(c, xs.drop_last());
        if b.closes() {
            r.push(b.floor(xs.last()))
        } else {
            r
        }
    }
}

/// The least of `xs`.
pub open spec fn least_of(xs: Seq<u64>) -> u64
    decreases xs.len(),
{
    if xs.len() <= 1 {
        xs[0]
    } else {
        lesser(least_of(xs.drop_last()), xs.last())
    }
}

/// How many blocks `n` samples fill.
pub open spec fn full_blocks(n: nat) -> nat {
    n / (BLOCK as nat)
}

/// The samples of block `b`.
pub open spec fn block(xs: Seq<u64>, b: int) -> Seq<u64> {
    xs.subrange(BLOCK * b, BLOCK * b + BLOCK)
}

/// The samples after the last full block.
pub open spec fn open_block(xs: Seq<u64>) -> Seq<u64> {
    xs.skip(BLOCK * full_blocks(xs.len()))
}

proof fn lemma_open_block(c: Cost, xs: Seq<u64>)
    requires
        c.block_n == 0,
    ensures
        sampled_all(c, xs).block_n == open_block(xs).len(),
        open_block(xs).len() < BLOCK,
        open_block(xs).len() > 0 ==> sampled_all(c, xs).block_min == least_of(open_block(xs)),
        minima(c, xs).len() == full_blocks(xs.len()),
        forall|b: int|
            #![trigger minima(c, xs)[b]]
            0 <= b < full_blocks(xs.len()) ==> minima(c, xs)[b] == least_of(block(xs, b)),
    decreases xs.len(),
{
    if xs.len() > 0 {
        let d = xs.drop_last();
        let f = full_blocks(d.len()) as int;
        lemma_open_block(c, d);
        let o = open_block(d);
        assert(xs.len() == BLOCK * f + o.len() + 1);
        let grown = o.push(xs.last());
        assert(grown.drop_last() =~= o);
        assert(grown == xs.skip(BLOCK * f)) by {
            assert(grown =~= xs.skip(BLOCK * f));
        }
        assert(sampled_all(c, d).floor(xs.last()) == least_of(grown));
        if o.len() + 1 == BLOCK {
            assert(full_blocks(xs.len()) == f + 1);
            assert(block(xs, f) =~= grown);
        } else {
            assert(full_blocks(xs.len()) == f);
        }
        assert forall|b: int|
            #![trigger minima(c, xs)[b]]
            0 <= b < full_blocks(xs.len()) implies minima(c, xs)[b] == least_of(block(xs, b)) by {
            if b < f {
                assert(minima(c, d)[b] == least_of(block(d, b)));
                assert(block(d, b) =~= block(xs, b));
            }
        }
    }
}

/// What the estimate follows is the least sample of each full block and nothing else: the blocks closed
/// are the full ones, in order, each with the least of its samples.
pub proof fn blocks_close_on_their_minima(c: Cost, xs: Seq<u64>)
    requires
        c.block_n == 0,
    ensures
        minima(c, xs) == Seq::new(full_blocks(xs.len()), |b: int| least_of(block(xs, b))),
{
    lemma_open_block(c, xs);
    assert(minima(c, xs) =~= Seq::new(full_blocks(xs.len()), |b: int| least_of(block(xs, b))));
}

/// Preempted steps leave the reading where it was: two streams of samples whose blocks have the same
/// minima close the same minima, whatever else is in them.
pub proof fn equal_floors_read_the_same(a: Cost, b: Cost, xs: Seq<u64>, ys: Seq<u64>)
    requires
        a.block_n == 0,
        b.block_n == 0,
        full_blocks(xs.len()) == full_blocks(ys.len()),
        forall|k: int|
            #![trigger block(xs, k)]
            #![trigger block(ys, k)]
            0 <= k < full_blocks(xs.len()) ==> least_of(block(xs, k)) == least_of(block(ys, k)),
    ensures
        minima(a, xs) == minima(b, ys),
{
    lemma_open_block(a, xs);
    lemma_open_block(b, ys);
    assert(minima(a, xs) =~= minima(b, ys));
}

} // verus!
