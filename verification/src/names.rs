//! Node names as a card shows them.
use vstd::prelude::*;

use crate::text::{chars, string_of};

verus! {

/// What `char::is_lowercase` says of a character.
pub uninterp spec fn lowercase(c: char) -> bool;

/// What `char::is_alphanumeric` says of a character.
pub uninterp spec fn alphanumeric(c: char) -> bool;

/// `char::is_lowercase`: a property of the character alone, read off the Unicode tables.
pub assume_specification[ char::is_lowercase ](c: char) -> (r: bool)
    ensures
        r == lowercase(c),
;

/// `char::is_alphanumeric`: a property of the character alone, read off the Unicode tables.
pub assume_specification[ char::is_alphanumeric ](c: char) -> (r: bool)
    ensures
        r == alphanumeric(c),
;

/// A character and the two classes of it that a path is read by.
#[derive(Clone, Copy)]
pub struct Glyph {
    pub c: char,
    pub lower: bool,
    pub alnum: bool,
}

/// `c` with its classes.
pub open spec fn glyph(c: char) -> Glyph {
    Glyph { c, lower: lowercase(c), alnum: alphanumeric(c) }
}

/// Every character of `s` with its classes.
pub open spec fn glyphs(s: Seq<char>) -> Seq<Glyph> {
    Seq::new(s.len(), |i: int| glyph(s[i]))
}

/// The characters of `g`.
pub open spec fn letters(g: Seq<Glyph>) -> Seq<char> {
    Seq::new(g.len(), |i: int| g[i].c)
}

/// The character belongs to a path segment.
pub open spec fn wordy(g: Glyph) -> bool {
    g.alnum || g.c == '_'
}

/// The text begins with a path separator.
pub open spec fn colons(g: Seq<Glyph>) -> bool {
    g.len() >= 2 && g[0].c == ':' && g[1].c == ':'
}

/// The length of the path segment the text begins with.
pub open spec fn segment(g: Seq<Glyph>) -> nat
    decreases g.len(),
{
    if g.len() == 0 || colons(g) || !wordy(g[0]) {
        0
    } else {
        1 + segment(g.drop_first())
    }
}

/// A segment is a module when it starts lowercase.
pub open spec fn module(seg: Seq<Glyph>) -> bool {
    seg.len() > 0 && seg[0].lower
}

/// The text with every module segment and the separator after it left out. A segment is one only
/// where a separator follows; anything else is carried over as it stands.
pub open spec fn trimmed(g: Seq<Glyph>) -> Seq<Glyph>
    decreases g.len(),
{
    let w = segment(g) as int;
    if w >= g.len() {
        g
    } else if colons(g.skip(w)) {
        (if module(g.take(w)) {
            Seq::empty()
        } else {
            g.take(w + 2)
        }) + trimmed(g.skip(w + 2))
    } else {
        g.take(w + 1) + trimmed(g.skip(w + 1))
    }
}

/// The name a card shows for the node called `name`.
pub open spec fn shown_name(name: Seq<char>) -> Seq<char> {
    letters(trimmed(glyphs(name)))
}

/// Each of `names` as a card shows it.
pub open spec fn shown_names(names: Seq<Seq<char>>) -> Seq<Seq<char>> {
    Seq::new(names.len(), |i: int| shown_name(names[i]))
}

/// The segment at `j` reaches exactly as far as its part from `i` on does.
proof fn lemma_segment_step(g: Seq<Glyph>, i: int)
    requires
        0 <= i < g.len(),
    ensures
        segment(g.skip(i)) == if colons(g.skip(i)) || !wordy(g[i]) {
            0
        } else {
            1 + segment(g.skip(i + 1))
        },
{
    assert(g.skip(i).drop_first() =~= g.skip(i + 1));
}

proof fn lemma_assoc(a: Seq<Glyph>, b: Seq<Glyph>, c: Seq<Glyph>)
    ensures
        (a + b) + c == a + (b + c),
{
    assert((a + b) + c =~= a + (b + c));
}

/// Mid-walk: `out` up to `seg` is settled, the rest of it is the segment `j..i` of the input, and
/// what is settled followed by the trimmed input from `j` on is the trimmed whole.
spec fn walking(g: Seq<Glyph>, out: Seq<Glyph>, seg: int, j: int, i: int) -> bool {
    &&& 0 <= j <= i <= g.len()
    &&& 0 <= seg <= out.len()
    &&& out.skip(seg) == g.subrange(j, i)
    &&& out.take(seg) + trimmed(g.skip(j)) == trimmed(g)
    &&& segment(g.skip(j)) == (i - j) + segment(g.skip(i))
}

proof fn lemma_walk_cut(g: Seq<Glyph>, out: Seq<Glyph>, seg: int, j: int, i: int)
    requires
        walking(g, out, seg, j, i),
        i < g.len(),
        colons(g.skip(i)) || !wordy(g[i]),
    ensures
        segment(g.skip(j)) == i - j,
        g.skip(j).skip(i - j) == g.skip(i),
        g.skip(j).take(i - j) == out.skip(seg),
{
    lemma_segment_step(g, i);
    assert(g.skip(j).skip(i - j) =~= g.skip(i));
    assert(g.skip(j).take(i - j) =~= g.subrange(j, i));
}

proof fn lemma_walk_drop(g: Seq<Glyph>, out: Seq<Glyph>, seg: int, j: int, i: int)
    requires
        walking(g, out, seg, j, i),
        i < g.len(),
        colons(g.skip(i)),
        module(out.skip(seg)),
    ensures
        walking(g, out.take(seg), seg, i + 2, i + 2),
{
    lemma_walk_cut(g, out, seg, j, i);
    let at = g.skip(j);
    let w = i - j;
    assert(at.skip(w + 2) =~= g.skip(i + 2));
    assert(trimmed(at) == Seq::<Glyph>::empty() + trimmed(g.skip(i + 2)));
    assert(Seq::<Glyph>::empty() + trimmed(g.skip(i + 2)) =~= trimmed(g.skip(i + 2)));
    assert(out.take(seg).take(seg) =~= out.take(seg));
    assert(out.take(seg).skip(seg) =~= g.subrange(i + 2, i + 2));
}

proof fn lemma_walk_keep(g: Seq<Glyph>, out: Seq<Glyph>, seg: int, j: int, i: int)
    requires
        walking(g, out, seg, j, i),
        i < g.len(),
        colons(g.skip(i)),
        !module(out.skip(seg)),
    ensures
        walking(g, out.push(g[i]).push(g[i + 1]), (out.len() + 2) as int, i + 2, i + 2),
{
    lemma_walk_cut(g, out, seg, j, i);
    let at = g.skip(j);
    let w = i - j;
    let head = out.take(seg);
    let now = out.push(g[i]).push(g[i + 1]);
    let rest = trimmed(g.skip(i + 2));
    assert(at.skip(w + 2) =~= g.skip(i + 2));
    assert(trimmed(at) == at.take(w + 2) + rest);
    assert(now =~= head + at.take(w + 2)) by {
        assert(out =~= head + out.skip(seg));
        assert(at.take(w + 2) =~= at.take(w).push(g[i]).push(g[i + 1]));
    }
    assert(now.take((out.len() + 2) as int) =~= now);
    lemma_assoc(head, at.take(w + 2), rest);
    assert(now.skip((out.len() + 2) as int) =~= g.subrange(i + 2, i + 2));
}

proof fn lemma_walk_break(g: Seq<Glyph>, out: Seq<Glyph>, seg: int, j: int, i: int)
    requires
        walking(g, out, seg, j, i),
        i < g.len(),
        !colons(g.skip(i)),
        !wordy(g[i]),
    ensures
        walking(g, out.push(g[i]), (out.len() + 1) as int, i + 1, i + 1),
{
    lemma_walk_cut(g, out, seg, j, i);
    let at = g.skip(j);
    let w = i - j;
    let head = out.take(seg);
    let now = out.push(g[i]);
    let rest = trimmed(g.skip(i + 1));
    assert(at.skip(w + 1) =~= g.skip(i + 1));
    assert(trimmed(at) == at.take(w + 1) + rest);
    assert(now =~= head + at.take(w + 1)) by {
        assert(out =~= head + out.skip(seg));
        assert(at.take(w + 1) =~= at.take(w).push(g[i]));
    }
    assert(now.take((out.len() + 1) as int) =~= now);
    lemma_assoc(head, at.take(w + 1), rest);
    assert(now.skip((out.len() + 1) as int) =~= g.subrange(i + 1, i + 1));
}

proof fn lemma_walk_word(g: Seq<Glyph>, out: Seq<Glyph>, seg: int, j: int, i: int)
    requires
        walking(g, out, seg, j, i),
        i < g.len(),
        !colons(g.skip(i)),
        wordy(g[i]),
    ensures
        walking(g, out.push(g[i]), seg, j, i + 1),
{
    lemma_segment_step(g, i);
    assert(out.push(g[i]).take(seg) =~= out.take(seg));
    assert(out.push(g[i]).skip(seg) =~= out.skip(seg).push(g[i]));
    assert(g.subrange(j, i + 1) =~= g.subrange(j, i).push(g[i]));
}

proof fn lemma_walk_done(g: Seq<Glyph>, out: Seq<Glyph>, seg: int, j: int)
    requires
        walking(g, out, seg, j, g.len() as int),
    ensures
        out == trimmed(g),
{
    let at = g.skip(j);
    assert(g.skip(g.len() as int).len() == 0);
    assert(trimmed(at) == at);
    assert(out =~= out.take(seg) + out.skip(seg));
    assert(g.subrange(j, g.len() as int) =~= at);
}

/// Drops module paths at every depth: `Buffer<spl::nodes::Bar1m, dag::Horizon::Span(..)>` reads
/// `Buffer<Bar1m, Horizon::Span(..)>`.
pub fn trim_glyphs(g: &[Glyph]) -> (out: Vec<Glyph>)
    ensures
        out@ == trimmed(g@),
{
    let mut out: Vec<Glyph> = Vec::new();
    // Where the segment being accumulated starts: a separator rewinds to it when what precedes is a
    // module.
    let mut seg: usize = 0;
    let ghost mut j: int = 0;
    let mut i: usize = 0;
    proof {
        assert(g@.skip(0) =~= g@);
        assert(out@.take(0) + trimmed(g@) =~= trimmed(g@));
        assert(out@.skip(0) =~= g@.subrange(0, 0));
    }
    while i < g.len()
        invariant
            walking(g@, out@, seg as int, j, i as int),
        decreases g@.len() - i,
    {
        if g.len() - i >= 2 && g[i].c == ':' && g[i + 1].c == ':' {
            assert(colons(g@.skip(i as int)));
            let lowered: bool = seg < out.len() && out[seg].lower;
            assert(lowered == module(out@.skip(seg as int)));
            if lowered {
                proof {
                    lemma_walk_drop(g@, out@, seg as int, j, i as int);
                    assert(out@.take(seg as int) =~= out@.subrange(0, seg as int));
                }
                out.truncate(seg);
            } else {
                proof {
                    lemma_walk_keep(g@, out@, seg as int, j, i as int);
                }
                out.push(g[i]);
                out.push(g[i + 1]);
                seg = out.len();
            }
            i += 2;
            proof {
                j = i as int;
            }
        } else {
            assert(!colons(g@.skip(i as int)));
            let c: Glyph = g[i];
            if c.alnum || c.c == '_' {
                proof {
                    lemma_walk_word(g@, out@, seg as int, j, i as int);
                }
                out.push(c);
                i += 1;
            } else {
                proof {
                    lemma_walk_break(g@, out@, seg as int, j, i as int);
                }
                out.push(c);
                seg = out.len();
                i += 1;
                proof {
                    j = i as int;
                }
            }
        }
    }
    proof {
        lemma_walk_done(g@, out@, seg as int, j);
    }
    out
}

/// Drops module paths at every depth, so a card reads as the types it names.
pub fn trim(name: &str) -> (out: String)
    ensures
        out@ == shown_name(name@),
{
    let cs: Vec<char> = chars(name);
    let mut g: Vec<Glyph> = Vec::new();
    let mut i: usize = 0;
    while i < cs.len()
        invariant
            cs@ == name@,
            i <= cs@.len(),
            g@ == glyphs(name@).take(i as int),
        decreases cs@.len() - i,
    {
        let c: char = cs[i];
        g.push(Glyph { c, lower: c.is_lowercase(), alnum: c.is_alphanumeric() });
        assert(glyphs(name@).take(i as int).push(glyph(c)) =~= glyphs(name@).take(i + 1));
        i += 1;
    }
    assert(glyphs(name@).take(i as int) =~= glyphs(name@));
    let t: Vec<Glyph> = trim_glyphs(g.as_slice());
    let mut out: Vec<char> = Vec::new();
    let mut k: usize = 0;
    while k < t.len()
        invariant
            k <= t@.len(),
            out@ == letters(t@).take(k as int),
        decreases t@.len() - k,
    {
        out.push(t[k].c);
        assert(letters(t@).take(k as int).push(t@[k as int].c) =~= letters(t@).take(k + 1));
        k += 1;
    }
    assert(letters(t@).take(k as int) =~= letters(t@));
    let n: usize = out.len();
    let r = string_of(out.as_slice(), 0, n);
    assert(out@.subrange(0, n as int) =~= out@);
    r
}

/// Each of `names`, trimmed.
pub fn trim_all(names: &[&'static str]) -> (out: Vec<String>)
    ensures
        out.deep_view() == shown_names(names.deep_view()),
{
    let mut out: Vec<String> = Vec::new();
    let mut k: usize = 0;
    while k < names.len()
        invariant
            k <= names@.len(),
            out@.len() == k,
            forall|i: int| #![trigger out@[i]] 0 <= i < k ==> out@[i]@ == shown_name(names@[i]@),
        decreases names@.len() - k,
    {
        out.push(trim(names[k]));
        k += 1;
    }
    assert(out.deep_view() =~= shown_names(names.deep_view()));
    out
}

/// A name without a path separator is shown as it is.
pub proof fn plain_names_are_kept(g: Seq<Glyph>)
    requires
        forall|i: int| #![trigger g[i]] 0 <= i < g.len() - 1 ==> !(g[i].c == ':' && g[i + 1].c == ':'),
    ensures
        trimmed(g) == g,
    decreases g.len(),
{
    let w = segment(g) as int;
    if w < g.len() {
        if colons(g.skip(w)) {
            assert(g[w].c == ':' && g[w + 1].c == ':');
        }
        let rest = g.skip(w + 1);
        assert forall|i: int| #![trigger rest[i]] 0 <= i < rest.len() - 1 implies !(rest[i].c == ':'
            && rest[i + 1].c == ':') by {
            assert(rest[i] == g[i + w + 1]);
            assert(rest[i + 1] == g[i + w + 2]);
        }
        plain_names_are_kept(rest);
        assert(g.take(w + 1) + rest =~= g);
    }
}

/// A colon stands at `i`.
pub open spec fn colon(s: Seq<char>, i: int) -> bool {
    0 <= i < s.len() && s[i] == ':'
}

/// No three colons stand in a row, as they never do in a path.
pub open spec fn untripled(s: Seq<char>) -> bool {
    forall|i: int| #![trigger colon(s, i)] colon(s, i) ==> !(colon(s, i + 1) && colon(s, i + 2))
}

/// Read segment by segment, no separator of the text follows a module.
pub open spec fn pathless(g: Seq<Glyph>) -> bool
    decreases g.len(),
{
    let w = segment(g) as int;
    if w >= g.len() {
        true
    } else if colons(g.skip(w)) {
        !module(g.take(w)) && pathless(g.skip(w + 2))
    } else {
        pathless(g.skip(w + 1))
    }
}

/// The characters carry their own classes.
pub open spec fn own_classes(g: Seq<Glyph>) -> bool {
    forall|i: int| #![trigger g[i]] 0 <= i < g.len() ==> g[i] == glyph(g[i].c)
}

proof fn lemma_segment_within(g: Seq<Glyph>)
    ensures
        segment(g) <= g.len(),
        segment(g) < g.len() ==> colons(g.skip(segment(g) as int)) || !wordy(
            g[segment(g) as int],
        ),
    decreases g.len(),
{
    if g.len() == 0 || colons(g) || !wordy(g[0]) {
        assert(g.skip(0) =~= g);
    } else {
        let d = g.drop_first();
        lemma_segment_within(d);
        assert(d.skip(segment(d) as int) =~= g.skip(segment(g) as int));
    }
}

/// A text that begins as another does up to past the end of its segment has the same segment.
proof fn lemma_segment_prefix(g: Seq<Glyph>, r: Seq<Glyph>, k: int)
    requires
        0 <= k,
        segment(g) < g.len(),
        segment(g) < k <= g.len(),
        k <= r.len(),
        g.take(k) == r.take(k),
        colons(g.skip(segment(g) as int)) ==> segment(g) + 2 <= k,
    ensures
        segment(r) == segment(g),
    decreases g.len(),
{
    lemma_segment_within(g);
    assert(g[0] == g.take(k)[0] && r[0] == r.take(k)[0]);
    if segment(g) == 0 {
        assert(g.skip(0) =~= g);
        if colons(g) {
            assert(g[1] == g.take(k)[1] && r[1] == r.take(k)[1]);
        }
    } else {
        assert(g[1] == g.take(k)[1] && r[1] == r.take(k)[1]);
        let d = g.drop_first();
        let e = r.drop_first();
        assert(d.skip(segment(d) as int) =~= g.skip(segment(g) as int));
        assert(d.take(k - 1) =~= g.take(k).drop_first());
        assert(e.take(k - 1) =~= r.take(k).drop_first());
        lemma_segment_prefix(d, e, k - 1);
    }
}

proof fn lemma_untripled_rest(g: Seq<Glyph>, k: int)
    requires
        untripled(letters(g)),
        0 <= k <= g.len(),
    ensures
        untripled(letters(g.skip(k))),
{
    let s = letters(g);
    let l = letters(g.skip(k));
    assert forall|i: int| #![trigger colon(l, i)] colon(l, i) implies !(colon(l, i + 1) && colon(
        l,
        i + 2,
    )) by {
        assert(colon(s, i + k));
        assert(colon(l, i + 1) == colon(s, i + 1 + k));
        assert(colon(l, i + 2) == colon(s, i + 2 + k));
    }
}

/// Leaving paths out brings no colon to the front.
proof fn lemma_front(g: Seq<Glyph>)
    requires
        untripled(letters(g)),
        g.len() > 0 ==> g[0].c != ':',
    ensures
        trimmed(g).len() > 0 ==> trimmed(g)[0].c != ':',
    decreases g.len(),
{
    let w = segment(g) as int;
    if w < g.len() && colons(g.skip(w)) && module(g.take(w)) {
        let s = letters(g);
        assert(g.skip(w)[0] == g[w] && g.skip(w)[1] == g[w + 1]);
        assert(colon(s, w) && colon(s, w + 1));
        assert(!colon(s, w + 2));
        lemma_untripled_rest(g, w + 2);
        lemma_front(g.skip(w + 2));
        assert(trimmed(g) =~= trimmed(g.skip(w + 2)));
    } else if w < g.len() && colons(g.skip(w)) {
        assert(g.skip(w)[0] == g[w]);
    }
}

proof fn lemma_pathless(g: Seq<Glyph>)
    requires
        untripled(letters(g)),
    ensures
        pathless(trimmed(g)),
    decreases g.len(),
{
    let w = segment(g) as int;
    let r = trimmed(g);
    lemma_segment_within(g);
    if w < g.len() {
        if colons(g.skip(w)) {
            let rest = g.skip(w + 2);
            assert(g.skip(w)[0] == g[w] && g.skip(w)[1] == g[w + 1]);
            lemma_untripled_rest(g, w + 2);
            lemma_pathless(rest);
            if module(g.take(w)) {
                assert(r =~= trimmed(rest));
            } else {
                assert(r.take(w + 2) =~= g.take(w + 2));
                lemma_segment_prefix(g, r, w + 2);
                assert(r.skip(w + 2) =~= trimmed(rest));
                assert(r.take(w) =~= g.take(w));
                assert(r.skip(w)[0] == g[w] && r.skip(w)[1] == g[w + 1]);
            }
        } else {
            let rest = g.skip(w + 1);
            lemma_untripled_rest(g, w + 1);
            lemma_pathless(rest);
            assert(r.take(w + 1) =~= g.take(w + 1));
            lemma_segment_prefix(g, r, w + 1);
            assert(r.skip(w + 1) =~= trimmed(rest));
            assert(!colons(r.skip(w))) by {
                assert(r.skip(w)[0] == g[w]);
                if g[w].c == ':' {
                    assert(g.skip(w)[0] == g[w]);
                    if rest.len() > 0 {
                        assert(g.skip(w)[1] == rest[0]);
                    }
                    lemma_front(rest);
                    if r.skip(w).len() > 1 {
                        assert(r.skip(w)[1] == trimmed(rest)[0]);
                    }
                }
            }
        }
    }
}

proof fn lemma_pathless_stays(g: Seq<Glyph>)
    requires
        pathless(g),
    ensures
        trimmed(g) == g,
    decreases g.len(),
{
    let w = segment(g) as int;
    if w < g.len() {
        if colons(g.skip(w)) {
            lemma_pathless_stays(g.skip(w + 2));
            assert(g.take(w + 2) + g.skip(w + 2) =~= g);
        } else {
            lemma_pathless_stays(g.skip(w + 1));
            assert(g.take(w + 1) + g.skip(w + 1) =~= g);
        }
    }
}

proof fn lemma_trimmed_classes(g: Seq<Glyph>)
    requires
        own_classes(g),
    ensures
        own_classes(trimmed(g)),
    decreases g.len(),
{
    let w = segment(g) as int;
    if w < g.len() {
        let k = if colons(g.skip(w)) {
            w + 2
        } else {
            w + 1
        };
        let rest = g.skip(k);
        assert forall|i: int| #![trigger rest[i]] 0 <= i < rest.len() implies rest[i] == glyph(
            rest[i].c,
        ) by {
            assert(g[i + k] == glyph(g[i + k].c));
        }
        lemma_trimmed_classes(rest);
        let r = trimmed(g);
        let n = r.len() - trimmed(rest).len();
        assert forall|i: int| #![trigger r[i]] 0 <= i < r.len() implies r[i] == glyph(r[i].c) by {
            if i < n {
                assert(r[i] == g[i]);
            } else {
                assert(r[i] == trimmed(rest)[i - n]);
            }
        }
    }
}

/// A shown name holds no module path: no separator of it follows a module, and showing it again changes
/// nothing.
pub proof fn a_shown_name_holds_no_module_path(name: Seq<char>)
    requires
        untripled(name),
    ensures
        pathless(glyphs(shown_name(name))),
        shown_name(shown_name(name)) == shown_name(name),
{
    let g = glyphs(name);
    let t = trimmed(g);
    assert(letters(g) =~= name);
    lemma_pathless(g);
    lemma_trimmed_classes(g);
    assert(glyphs(letters(t)) =~= t) by {
        assert forall|i: int| 0 <= i < t.len() implies glyphs(letters(t))[i] == t[i] by {
            assert(t[i] == glyph(t[i].c));
        }
    }
    lemma_pathless_stays(t);
}

} // verus!
