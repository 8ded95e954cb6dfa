//! One tick's acts, kept by column.
//!
//! Node identity lives once, in the topology; a tick keeps only what varies. Step order is fixed, so
//! the columns are appended front to back and a node is a set of ends into each.
use vstd::prelude::*;
use vstd::slice::slice_subrange;
use vstd::utf8::{
    encode_utf8, encode_utf8_valid_utf8, is_char_boundary,
    is_char_boundary_iff_not_is_continuation_byte, is_char_boundary_start_end_of_seq,
};

use crate::floats::Bits;
use crate::text::{
    byte_len, lemma_boundary_append, lemma_encode_concat, lemma_slice_append, slice, slice_chars,
};

verus! {

/// What one node did on one tick.
#[verifier::ext_equal]
pub struct ActView {
    /// The compact rendering of the output, empty when the node did not fire.
    pub out: Seq<char>,
    /// Whether the sweep advanced the node.
    pub ran: bool,
    /// The flattened output; `None` is the unfired reading.
    pub vals: Option<Seq<Bits>>,
    /// The local Jacobian, row-major.
    pub jac: Option<Seq<Bits>>,
    /// The exactly known columns of the Jacobian and the width each dependency takes of them.
    pub block: Option<(Seq<Bits>, Seq<usize>)>,
    /// Whether the Jacobian was reached exactly.
    pub exact: bool,
}

/// Where a node's share of each column ends.
#[derive(Clone, Copy)]
pub struct Ends {
    pub out: u32,
    pub vals: u32,
    pub jac: u32,
    pub block: u32,
    pub widths: u32,
}

/// One tick's acts, by column.
pub struct Acts {
    pub outs: String,
    pub vals: Vec<Bits>,
    pub jac: Vec<Bits>,
    pub block: Vec<Bits>,
    pub widths: Vec<usize>,
    /// How this tick's Jacobian was reached, positional with `ends`.
    pub exact: Vec<bool>,
    /// Whether the sweep advanced each node, positional with `ends`. The columns do not say: a
    /// clocked node between publications grows none of them and was stepped all the same.
    pub ran: Vec<bool>,
    /// Positional with the topology.
    pub ends: Vec<Ends>,
}

/// What a node reports when it is stepped.
pub struct Report<'a> {
    /// The rendering of the output; it is recorded only where `vals` is.
    pub glance: &'a str,
    pub ran: bool,
    pub vals: Option<&'a [Bits]>,
    pub jac: Option<&'a [Bits]>,
    pub exact_block: Option<(&'a [Bits], &'a [usize])>,
    pub exact: bool,
}

/// One node's slice of a tick.
pub struct ActRef<'a> {
    pub out: &'a str,
    pub ran: bool,
    pub vals: Option<&'a [Bits]>,
    pub jac: Option<&'a [Bits]>,
    pub block: Option<(&'a [Bits], &'a [usize])>,
    pub exact: bool,
}

/// `s` where there is something in it: a column that did not grow reads as absent.
pub open spec fn grown<T>(s: Seq<T>) -> Option<Seq<T>> {
    if s.len() > 0 {
        Some(s)
    } else {
        None
    }
}

/// The part of `s` between two ends, absent when the column did not grow between them.
pub open spec fn between<T>(s: Seq<T>, from: int, to: int) -> Option<Seq<T>> {
    if to > from {
        Some(s.subrange(from, to))
    } else {
        None
    }
}

/// The contents of an optional column, nothing when it is absent.
pub open spec fn content<T>(s: Option<&[T]>) -> Seq<T> {
    match s {
        Some(x) => x@,
        None => Seq::empty(),
    }
}

impl<'a> View for ActRef<'a> {
    type V = ActView;

    open spec fn view(&self) -> ActView {
        ActView {
            out: self.out@,
            ran: self.ran,
            vals: match self.vals {
                Some(v) => Some(v@),
                None => None,
            },
            jac: match self.jac {
                Some(v) => Some(v@),
                None => None,
            },
            block: match self.block {
                Some((c, w)) => Some((c@, w@)),
                None => None,
            },
            exact: self.exact,
        }
    }
}

impl<'a> Report<'a> {
    /// The text this report adds.
    pub open spec fn text(self) -> Seq<char> {
        match self.vals {
            Some(_) => self.glance@,
            None => Seq::empty(),
        }
    }

    /// The exact columns this report adds.
    pub open spec fn cols(self) -> Seq<Bits> {
        match self.exact_block {
            Some((c, _)) => c@,
            None => Seq::empty(),
        }
    }

    /// The widths this report adds.
    pub open spec fn widths(self) -> Seq<usize> {
        match self.exact_block {
            Some((_, w)) => w@,
            None => Seq::empty(),
        }
    }

    /// What the tape will say the node did.
    pub open spec fn act(self) -> ActView {
        ActView {
            out: self.text(),
            ran: self.ran,
            vals: grown(content(self.vals)),
            jac: grown(content(self.jac)),
            block: if self.cols().len() > 0 {
                Some((self.cols(), self.widths()))
            } else {
                None
            },
            exact: self.exact,
        }
    }
}

impl Ends {
    /// Every column ends no later in `self` than in `o`.
    pub open spec fn le(self, o: Ends) -> bool {
        &&& self.out <= o.out
        &&& self.vals <= o.vals
        &&& self.jac <= o.jac
        &&& self.block <= o.block
        &&& self.widths <= o.widths
    }

    /// Before anything was appended.
    pub open spec fn zero() -> Ends {
        Ends { out: 0, vals: 0, jac: 0, block: 0, widths: 0 }
    }
}

impl Acts {
    /// Where node `i`'s share begins, which is where its predecessor's ends.
    pub open spec fn edge(self, i: int) -> Ends {
        if 0 < i <= self.ends@.len() {
            self.ends@[i - 1]
        } else {
            Ends::zero()
        }
    }

    /// The columns' lengths are those the last node closed at.
    pub open spec fn full(self) -> bool {
        let e = self.edge(self.ends@.len() as int);
        &&& e.out == encode_utf8(self.outs@).len()
        &&& e.vals == self.vals@.len()
        &&& e.jac == self.jac@.len()
        &&& e.block == self.block@.len()
        &&& e.widths == self.widths@.len()
    }

    /// The columns agree: one flag of each kind per node, ends that never move back, every cut of the
    /// text on a character boundary, nothing past the last node.
    pub open spec fn wf(self) -> bool {
        &&& self.exact@.len() == self.ends@.len()
        &&& self.ran@.len() == self.ends@.len()
        &&& self.full()
        &&& forall|i: int, j: int|
            #![trigger self.edge(i), self.edge(j)]
            0 <= i <= j <= self.ends@.len() ==> self.edge(i).le(self.edge(j))
        &&& forall|i: int|
            #![trigger self.edge(i)]
            0 <= i <= self.ends@.len() ==> is_char_boundary(
                encode_utf8(self.outs@),
                self.edge(i).out as int,
            )
    }

    /// Node `i` can be read: it has a flag of each kind, its text is cut on character boundaries, and
    /// what grew for it is there.
    pub open spec fn readable(self, i: int) -> bool {
        let a = self.edge(i);
        let b = self.edge(i + 1);
        &&& i < self.exact@.len()
        &&& i < self.ran@.len()
        &&& a.out <= b.out <= encode_utf8(self.outs@).len()
        &&& is_char_boundary(encode_utf8(self.outs@), a.out as int)
        &&& is_char_boundary(encode_utf8(self.outs@), b.out as int)
        &&& b.vals > a.vals ==> b.vals <= self.vals@.len()
        &&& b.jac > a.jac ==> b.jac <= self.jac@.len()
        &&& b.block > a.block ==> b.block <= self.block@.len() && a.widths <= b.widths
            <= self.widths@.len()
    }

    /// Every node can be read.
    pub open spec fn legible(self) -> bool {
        forall|i: int| 0 <= i < self.ends@.len() ==> #[trigger] self.readable(i)
    }

    /// What node `i` did.
    pub open spec fn act(self, i: int) -> ActView {
        let a = self.edge(i);
        let b = self.edge(i + 1);
        ActView {
            out: slice_chars(self.outs@, a.out as int, b.out as int),
            ran: self.ran@[i],
            vals: between(self.vals@, a.vals as int, b.vals as int),
            jac: between(self.jac@, a.jac as int, b.jac as int),
            block: if b.block > a.block {
                Some(
                    (
                        self.block@.subrange(a.block as int, b.block as int),
                        self.widths@.subrange(a.widths as int, b.widths as int),
                    ),
                )
            } else {
                None
            },
            exact: self.exact@[i],
        }
    }

    /// Whether the columns still end under the width an end is stored in once `f` is appended.
    pub open spec fn room(self, f: Report<'_>) -> bool {
        &&& encode_utf8(self.outs@).len() + encode_utf8(f.text()).len() <= u32::MAX
        &&& self.vals@.len() + content(f.vals).len() <= u32::MAX
        &&& self.jac@.len() + content(f.jac).len() <= u32::MAX
        &&& self.block@.len() + f.cols().len() <= u32::MAX
        &&& self.widths@.len() + f.widths().len() <= u32::MAX
    }
}

impl View for Acts {
    type V = Seq<ActView>;

    open spec fn view(&self) -> Seq<ActView> {
        Seq::new(self.ends@.len(), |i: int| self.act(i))
    }
}

impl DeepView for Acts {
    type V = Seq<ActView>;

    open spec fn deep_view(&self) -> Seq<ActView> {
        self@
    }
}

/// The part of `col` between two ends, absent when the column did not grow.
fn span<'a>(col: &'a Vec<Bits>, from: u32, to: u32) -> (r: Option<&'a [Bits]>)
    requires
        to > from ==> to <= col@.len(),
    ensures
        match r {
            Some(s) => between(col@, from as int, to as int) == Some(s@),
            None => between(col@, from as int, to as int) is None,
        },
{
    if to > from {
        Some(slice_subrange(col.as_slice(), from as usize, to as usize))
    } else {
        None
    }
}

/// A copy of a slice.
pub fn copied<T: Copy>(s: &[T]) -> (r: Vec<T>)
    ensures
        r@ == s@,
{
    let mut out: Vec<T> = Vec::new();
    extend(&mut out, s);
    assert(Seq::<T>::empty() + s@ =~= s@);
    out
}

/// Appends a whole slice.
fn extend<T: Copy>(col: &mut Vec<T>, s: &[T])
    ensures
        final(col)@ == old(col)@ + s@,
{
    let ghost was = col@;
    let mut k: usize = 0;
    while k < s.len()
        invariant
            k <= s@.len(),
            col@ == was + s@.take(k as int),
        decreases s@.len() - k,
    {
        col.push(s[k]);
        assert(s@.take(k as int).push(s@[k as int]) =~= s@.take(k + 1));
        assert((was + s@.take(k as int)).push(s@[k as int]) =~= was + s@.take(k + 1));
        k += 1;
    }
    assert(s@.take(k as int) =~= s@);
}

impl Acts {
    /// Empty columns.
    pub fn new() -> (r: Acts)
        ensures
            r.wf(),
            r@ == Seq::<ActView>::empty(),
    {
        let r = Acts {
            outs: String::new(),
            vals: Vec::new(),
            jac: Vec::new(),
            block: Vec::new(),
            widths: Vec::new(),
            exact: Vec::new(),
            ran: Vec::new(),
            ends: Vec::new(),
        };
        proof {
            encode_utf8_valid_utf8(r.outs@);
            is_char_boundary_start_end_of_seq(encode_utf8(r.outs@));
        }
        r
    }

    /// How many nodes have reported.
    pub fn len(&self) -> (r: usize)
        ensures
            r == self@.len(),
    {
        self.ends.len()
    }

    /// Node `i`'s act, `None` past the last node that reported.
    pub fn get(&self, i: usize) -> (r: Option<ActRef<'_>>)
        requires
            self.legible(),
        ensures
            match r {
                Some(a) => i < self@.len() && a@ == self@[i as int],
                None => i >= self@.len(),
            },
    {
        if i >= self.ends.len() {
            return None;
        }
        let b: Ends = self.ends[i];
        let a: Ends = if i == 0 {
            Ends { out: 0, vals: 0, jac: 0, block: 0, widths: 0 }
        } else {
            self.ends[i - 1]
        };
        proof {
            assert(a == self.edge(i as int));
            assert(b == self.edge(i + 1));
            assert(self.readable(i as int));
        }
        let block: Option<(&[Bits], &[usize])> = match span(&self.block, a.block, b.block) {
            Some(cols) => Some(
                (
                    cols,
                    slice_subrange(self.widths.as_slice(), a.widths as usize, b.widths as usize),
                ),
            ),
            None => None,
        };
        Some(
            ActRef {
                out: slice(self.outs.as_str(), a.out as usize, b.out as usize),
                ran: self.ran[i],
                vals: span(&self.vals, a.vals, b.vals),
                jac: span(&self.jac, a.jac, b.jac),
                block,
                exact: self.exact[i],
            },
        )
    }

    /// Whether `f` still fits: an end is stored narrower than a length, and a tick that outgrows one
    /// is a graph that changed shape.
    pub fn has_room(&self, f: &Report<'_>) -> (r: bool)
        ensures
            r == self.room(*f),
    {
        let limit: usize = u32::MAX as usize;
        let text: usize = match f.vals {
            Some(_) => byte_len(f.glance),
            None => 0,
        };
        let vals: usize = match f.vals {
            Some(v) => v.len(),
            None => 0,
        };
        let jac: usize = match f.jac {
            Some(v) => v.len(),
            None => 0,
        };
        let cols: usize = match f.exact_block {
            Some((c, _)) => c.len(),
            None => 0,
        };
        let widths: usize = match f.exact_block {
            Some((_, w)) => w.len(),
            None => 0,
        };
        fits(byte_len(self.outs.as_str()), text, limit) && fits(self.vals.len(), vals, limit)
            && fits(self.jac.len(), jac, limit) && fits(self.block.len(), cols, limit) && fits(
            self.widths.len(),
            widths,
            limit,
        )
    }

    /// Appends one node's report and closes it.
    pub fn push(&mut self, f: &Report<'_>)
        requires
            old(self).wf(),
            old(self).room(*f),
        ensures
            final(self).wf(),
            final(self)@ == old(self)@.push(f.act()),
    {
        let ghost was = *self;
        match f.vals {
            Some(vals) => {
                self.outs.append(f.glance);
                extend(&mut self.vals, vals);
            },
            None => {},
        }
        match f.jac {
            Some(jac) => {
                extend(&mut self.jac, jac);
            },
            None => {},
        }
        match f.exact_block {
            Some((block, widths)) => {
                extend(&mut self.block, block);
                extend(&mut self.widths, widths);
            },
            None => {},
        }
        self.exact.push(f.exact);
        self.ran.push(f.ran);
        proof {
            assert(self.outs@ =~= was.outs@ + f.text());
            assert(self.vals@ =~= was.vals@ + content(f.vals));
            assert(self.jac@ =~= was.jac@ + content(f.jac));
            assert(self.block@ =~= was.block@ + f.cols());
            assert(self.widths@ =~= was.widths@ + f.widths());
            lemma_encode_concat(was.outs@, f.text());
        }
        self.close();
        proof {
            lemma_pushed(was, *self, *f);
        }
    }

    /// Closes the node being appended.
    fn close(&mut self)
        requires
            encode_utf8(old(self).outs@).len() <= u32::MAX,
            old(self).vals@.len() <= u32::MAX,
            old(self).jac@.len() <= u32::MAX,
            old(self).block@.len() <= u32::MAX,
            old(self).widths@.len() <= u32::MAX,
        ensures
            *final(self) == (Acts { ends: final(self).ends, ..*old(self) }),
            final(self).ends@ == old(self).ends@.push(
                Ends {
                    out: encode_utf8(old(self).outs@).len() as u32,
                    vals: old(self).vals@.len() as u32,
                    jac: old(self).jac@.len() as u32,
                    block: old(self).block@.len() as u32,
                    widths: old(self).widths@.len() as u32,
                },
            ),
    {
        let end = Ends {
            out: byte_len(self.outs.as_str()) as u32,
            vals: self.vals.len() as u32,
            jac: self.jac.len() as u32,
            block: self.block.len() as u32,
            widths: self.widths.len() as u32,
        };
        self.ends.push(end);
    }

    /// Empties the columns, keeping what they allocated.
    pub fn clear(&mut self)
        ensures
            final(self).wf(),
            final(self)@ == Seq::<ActView>::empty(),
    {
        self.outs.clear();
        self.vals.clear();
        self.jac.clear();
        self.block.clear();
        self.widths.clear();
        self.exact.clear();
        self.ran.clear();
        self.ends.clear();
        proof {
            encode_utf8_valid_utf8(self.outs@);
            is_char_boundary_start_end_of_seq(encode_utf8(self.outs@));
        }
    }
}

/// Whether two lengths add up to at most `limit`.
fn fits(a: usize, b: usize, limit: usize) -> (r: bool)
    ensures
        r == (a + b <= limit),
{
    a <= limit && b <= limit - a
}

/// Appending a report leaves every earlier act as it was and adds the report's own.
proof fn lemma_pushed(was: Acts, now: Acts, f: Report<'_>)
    requires
        was.wf(),
        was.room(f),
        now.outs@ == was.outs@ + f.text(),
        now.vals@ == was.vals@ + content(f.vals),
        now.jac@ == was.jac@ + content(f.jac),
        now.block@ == was.block@ + f.cols(),
        now.widths@ == was.widths@ + f.widths(),
        now.exact@ == was.exact@.push(f.exact),
        now.ran@ == was.ran@.push(f.ran),
        now.ends@ == was.ends@.push(
            Ends {
                out: encode_utf8(now.outs@).len() as u32,
                vals: now.vals@.len() as u32,
                jac: now.jac@.len() as u32,
                block: now.block@.len() as u32,
                widths: now.widths@.len() as u32,
            },
        ),
    ensures
        now.wf(),
        now@ == was@.push(f.act()),
{
    let n = was.ends@.len() as int;
    lemma_encode_concat(was.outs@, f.text());
    assert forall|i: int| 0 <= i <= n implies #[trigger] now.edge(i) == was.edge(i) by {}
    let top = was.edge(n);
    assert(now.edge(n + 1) == now.ends@[n]);
    assert forall|i: int, j: int|
        #![trigger now.edge(i), now.edge(j)]
        0 <= i <= j <= n + 1 implies now.edge(i).le(now.edge(j)) by {
        if j <= n {
            assert(was.edge(i).le(was.edge(j)));
        } else if i <= n {
            assert(was.edge(i).le(was.edge(n)));
        }
    }
    assert forall|i: int| #![trigger now.edge(i)] 0 <= i <= n + 1 implies is_char_boundary(
        encode_utf8(now.outs@),
        now.edge(i).out as int,
    ) by {
        if i <= n {
            assert(was.edge(i).le(was.edge(n)));
            lemma_boundary_append(was.outs@, f.text(), was.edge(i).out as int);
        } else {
            encode_utf8_valid_utf8(now.outs@);
            is_char_boundary_start_end_of_seq(encode_utf8(now.outs@));
        }
    }
    assert forall|i: int| 0 <= i < n implies now.act(i) =~= was.act(i) by {
        assert(now.edge(i) == was.edge(i));
        assert(now.edge(i + 1) == was.edge(i + 1));
        assert(was.edge(i).le(was.edge(i + 1)));
        assert(was.edge(i + 1).le(was.edge(n)));
        let a = was.edge(i);
        let b = was.edge(i + 1);
        lemma_slice_append(was.outs@, f.text(), a.out as int, b.out as int);
        assert(now.vals@.subrange(a.vals as int, b.vals as int) =~= was.vals@.subrange(
            a.vals as int,
            b.vals as int,
        ));
        assert(now.jac@.subrange(a.jac as int, b.jac as int) =~= was.jac@.subrange(
            a.jac as int,
            b.jac as int,
        ));
        assert(now.block@.subrange(a.block as int, b.block as int) =~= was.block@.subrange(
            a.block as int,
            b.block as int,
        ));
        assert(now.widths@.subrange(a.widths as int, b.widths as int) =~= was.widths@.subrange(
            a.widths as int,
            b.widths as int,
        ));
    }
    assert(now.act(n) =~= f.act()) by {
        let a = now.edge(n);
        let b = now.edge(n + 1);
        lemma_slice_append(was.outs@, f.text(), 0, 0);
        assert(now.vals@.subrange(a.vals as int, b.vals as int) =~= content(f.vals));
        assert(now.jac@.subrange(a.jac as int, b.jac as int) =~= content(f.jac));
        assert(now.block@.subrange(a.block as int, b.block as int) =~= f.cols());
        assert(now.widths@.subrange(a.widths as int, b.widths as int) =~= f.widths());
    }
    assert(now@ =~= was@.push(f.act()));
}

/// Columns that agree can be read.
pub proof fn lemma_legible(a: Acts)
    requires
        a.wf(),
    ensures
        a.legible(),
{
    let n = a.ends@.len() as int;
    assert forall|i: int| 0 <= i < n implies #[trigger] a.readable(i) by {
        assert(a.edge(i).le(a.edge(i + 1)));
        assert(a.edge(i + 1).le(a.edge(n)));
    }
}

impl Clone for Acts {
    fn clone(&self) -> (r: Self)
        ensures
            r@ == self@,
            r.wf() == self.wf(),
            r.legible() == self.legible(),
    {
        let r = Acts {
            outs: self.outs.clone(),
            vals: self.vals.clone(),
            jac: self.jac.clone(),
            block: self.block.clone(),
            widths: self.widths.clone(),
            exact: self.exact.clone(),
            ran: self.ran.clone(),
            ends: self.ends.clone(),
        };
        proof {
            assert(r.vals@ =~= self.vals@);
            assert(r.jac@ =~= self.jac@);
            assert(r.block@ =~= self.block@);
            assert(r.widths@ =~= self.widths@);
            assert(r.exact@ =~= self.exact@);
            assert(r.ran@ =~= self.ran@);
            assert(r.ends@ =~= self.ends@);
            lemma_same_columns(*self, r);
        }
        r
    }
}

/// Equal columns are the same acts.
proof fn lemma_same_columns(a: Acts, b: Acts)
    requires
        a.outs@ == b.outs@,
        a.vals@ == b.vals@,
        a.jac@ == b.jac@,
        a.block@ == b.block@,
        a.widths@ == b.widths@,
        a.exact@ == b.exact@,
        a.ran@ == b.ran@,
        a.ends@ == b.ends@,
    ensures
        a@ == b@,
        a.wf() == b.wf(),
        a.legible() == b.legible(),
{
    assert forall|i: int| #[trigger] a.edge(i) == b.edge(i) by {}
    assert forall|i: int| #[trigger] a.readable(i) == b.readable(i) by {
        assert(a.edge(i) == b.edge(i));
        assert(a.edge(i + 1) == b.edge(i + 1));
    }
    if a.legible() {
        assert forall|i: int| 0 <= i < b.ends@.len() implies #[trigger] b.readable(i) by {
            assert(a.readable(i));
        }
    }
    assert forall|i: int| a.act(i) =~= b.act(i) by {
        assert(a.edge(i) == b.edge(i));
        assert(a.edge(i + 1) == b.edge(i + 1));
    }
    assert(a@ =~= b@);
    if a.wf() {
        assert forall|i: int, j: int|
            #![trigger b.edge(i), b.edge(j)]
            0 <= i <= j <= b.ends@.len() implies b.edge(i).le(b.edge(j)) by {
            assert(a.edge(i).le(a.edge(j)));
        }
        assert forall|i: int| #![trigger b.edge(i)] 0 <= i <= b.ends@.len() implies is_char_boundary(
            encode_utf8(b.outs@),
            b.edge(i).out as int,
        ) by {
            assert(a.edge(i) == b.edge(i));
        }
        assert(b.full()) by {
            assert(a.edge(a.ends@.len() as int) == b.edge(b.ends@.len() as int));
        }
        assert(b.wf());
    }
    if b.wf() {
        assert forall|i: int, j: int|
            #![trigger a.edge(i), a.edge(j)]
            0 <= i <= j <= a.ends@.len() implies a.edge(i).le(a.edge(j)) by {
            assert(b.edge(i).le(b.edge(j)));
        }
        assert forall|i: int| #![trigger a.edge(i)] 0 <= i <= a.ends@.len() implies is_char_boundary(
            encode_utf8(a.outs@),
            a.edge(i).out as int,
        ) by {
            assert(b.edge(i) == a.edge(i));
        }
        assert(a.full()) by {
            assert(a.edge(a.ends@.len() as int) == b.edge(b.ends@.len() as int));
        }
        assert(a.wf());
    }
}

/// Whether `at` is a character boundary of `s`.
fn on_boundary(s: &str, at: usize) -> (r: bool)
    requires
        at <= encode_utf8(s@).len(),
    ensures
        r == is_char_boundary(encode_utf8(s@), at as int),
{
    let bytes: &[u8] = s.as_bytes();
    proof {
        encode_utf8_valid_utf8(s@);
        is_char_boundary_start_end_of_seq(encode_utf8(s@));
    }
    if at == bytes.len() {
        return true;
    }
    proof {
        is_char_boundary_iff_not_is_continuation_byte(encode_utf8(s@), at as int);
    }
    let b: u8 = bytes[at];
    !(0x80 <= b && b <= 0xbf)
}

impl Acts {
    /// Whether node `i` can be read.
    fn reads(&self, i: usize) -> (r: bool)
        requires
            i < self.ends@.len(),
        ensures
            r == self.readable(i as int),
    {
        let b: Ends = self.ends[i];
        let a: Ends = if i == 0 {
            Ends { out: 0, vals: 0, jac: 0, block: 0, widths: 0 }
        } else {
            self.ends[i - 1]
        };
        assert(a == self.edge(i as int));
        assert(b == self.edge(i + 1));
        if i >= self.exact.len() || i >= self.ran.len() {
            return false;
        }
        if a.out > b.out || b.out as usize > byte_len(self.outs.as_str()) {
            return false;
        }
        if !on_boundary(self.outs.as_str(), a.out as usize) || !on_boundary(
            self.outs.as_str(),
            b.out as usize,
        ) {
            return false;
        }
        (b.vals <= a.vals || b.vals as usize <= self.vals.len()) && (b.jac <= a.jac || b.jac as usize
            <= self.jac.len()) && (b.block <= a.block || (b.block as usize <= self.block.len()
            && a.widths <= b.widths && b.widths as usize <= self.widths.len()))
    }

    /// Whether every node can be read: what a tape read back is asked before it is walked.
    pub fn agrees(&self) -> (r: bool)
        ensures
            r == self.legible(),
    {
        let mut i: usize = 0;
        while i < self.ends.len()
            invariant
                i <= self.ends@.len(),
                forall|j: int| 0 <= j < i ==> #[trigger] self.readable(j),
            decreases self.ends@.len() - i,
        {
            if !self.reads(i) {
                return false;
            }
            i += 1;
        }
        true
    }
}

} // verus!
