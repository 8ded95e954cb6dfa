//! Plain text helpers: comparison, searching and slicing of strings, stated over their characters.
use vstd::prelude::*;
use vstd::utf8::{
    decode_utf8, encode_utf8, encode_utf8_decode_utf8, encode_utf8_valid_utf8, is_char_boundary,
    is_char_boundary_iff_not_is_continuation_byte, is_char_boundary_start_end_of_seq,
    valid_utf8_split,
};

verus! {

/// `String::push`: appends one character to the end of the string and changes nothing else.
pub assume_specification[ String::push ](s: &mut String, c: char)
    ensures
        final(s)@ == old(s)@.push(c),
;

/// `String::clear`: removes every character.
pub assume_specification[ String::clear ](s: &mut String)
    ensures
        final(s)@ == Seq::<char>::empty(),
;

/// Encoding distributes over concatenation.
pub proof fn lemma_encode_concat(a: Seq<char>, b: Seq<char>)
    ensures
        encode_utf8(a + b) == encode_utf8(a) + encode_utf8(b),
    decreases a.len(),
{
    if a.len() == 0 {
        assert(a + b =~= b);
        assert(encode_utf8(a) + encode_utf8(b) =~= encode_utf8(b));
    } else {
        lemma_encode_concat(a.drop_first(), b);
        assert((a + b).drop_first() =~= a.drop_first() + b);
        assert(encode_utf8(a + b) =~= encode_utf8(a) + encode_utf8(b));
    }
}

/// Two strings with the same encoding are the same string.
pub proof fn lemma_encode_injective(a: Seq<char>, b: Seq<char>)
    requires
        encode_utf8(a) == encode_utf8(b),
    ensures
        a == b,
{
    encode_utf8_decode_utf8(a);
    encode_utf8_decode_utf8(b);
}

/// A boundary of an encoding is a boundary of any prefix that reaches it and ends on one itself.
pub proof fn lemma_boundary_in_prefix(bytes: Seq<u8>, mid: int, end: int)
    requires
        vstd::utf8::valid_utf8(bytes),
        is_char_boundary(bytes, mid),
        is_char_boundary(bytes, end),
        0 <= mid <= end <= bytes.len(),
    ensures
        vstd::utf8::valid_utf8(bytes.subrange(0, end)),
        is_char_boundary(bytes.subrange(0, end), mid),
{
    let pre = bytes.subrange(0, end);
    valid_utf8_split(bytes, end);
    if mid == end {
        is_char_boundary_start_end_of_seq(pre);
    } else {
        is_char_boundary_iff_not_is_continuation_byte(bytes, mid);
        is_char_boundary_iff_not_is_continuation_byte(pre, mid);
        assert(pre[mid] == bytes[mid]);
    }
}

/// Appending to an encoding keeps its boundaries, and its old end becomes one.
pub proof fn lemma_boundary_append(a: Seq<char>, b: Seq<char>, at: int)
    requires
        0 <= at <= encode_utf8(a).len(),
        is_char_boundary(encode_utf8(a), at),
    ensures
        is_char_boundary(encode_utf8(a + b), at),
        is_char_boundary(encode_utf8(a + b), encode_utf8(a).len() as int),
        is_char_boundary(encode_utf8(a + b), encode_utf8(a + b).len() as int),
{
    let ea = encode_utf8(a);
    let eb = encode_utf8(b);
    let e = encode_utf8(a + b);
    lemma_encode_concat(a, b);
    encode_utf8_valid_utf8(a);
    encode_utf8_valid_utf8(b);
    encode_utf8_valid_utf8(a + b);
    is_char_boundary_start_end_of_seq(e);
    is_char_boundary_start_end_of_seq(eb);
    is_char_boundary_start_end_of_seq(ea);
    let n = ea.len() as int;
    if eb.len() == 0 {
        assert(e =~= ea);
    } else {
        is_char_boundary_iff_not_is_continuation_byte(eb, 0);
        is_char_boundary_iff_not_is_continuation_byte(e, n);
        assert(e[n] == eb[0]);
        if at < n {
            is_char_boundary_iff_not_is_continuation_byte(ea, at);
            is_char_boundary_iff_not_is_continuation_byte(e, at);
            assert(e[at] == ea[at]);
        }
    }
}

/// The characters that bytes `from..to` of `s` encode.
pub open spec fn slice_chars(s: Seq<char>, from: int, to: int) -> Seq<char> {
    decode_utf8(encode_utf8(s).subrange(from, to))
}

/// Slices are stable under appending, and the appended part is the slice past the old end.
pub proof fn lemma_slice_append(a: Seq<char>, b: Seq<char>, from: int, to: int)
    requires
        0 <= from <= to <= encode_utf8(a).len(),
    ensures
        slice_chars(a + b, from, to) == slice_chars(a, from, to),
        slice_chars(
            a + b,
            encode_utf8(a).len() as int,
            encode_utf8(a + b).len() as int,
        ) == b,
{
    lemma_encode_concat(a, b);
    let ea = encode_utf8(a);
    let e = encode_utf8(a + b);
    assert(e.subrange(from, to) =~= ea.subrange(from, to));
    assert(e.subrange(ea.len() as int, e.len() as int) =~= encode_utf8(b));
    encode_utf8_decode_utf8(b);
}

/// The part of `s` between two byte offsets, both on character boundaries.
pub fn slice<'a>(s: &'a str, from: usize, to: usize) -> (r: &'a str)
    requires
        from <= to <= encode_utf8(s@).len(),
        is_char_boundary(encode_utf8(s@), from as int),
        is_char_boundary(encode_utf8(s@), to as int),
    ensures
        r@ == slice_chars(s@, from as int, to as int),
{
    let (head, _) = s.split_at(to);
    proof {
        encode_utf8_valid_utf8(s@);
        lemma_boundary_in_prefix(encode_utf8(s@), from as int, to as int);
    }
    let (_, mid) = head.split_at(from);
    proof {
        assert(encode_utf8(mid@) =~= encode_utf8(s@).subrange(from as int, to as int));
        encode_utf8_decode_utf8(mid@);
    }
    mid
}

/// How many bytes `s` takes up.
pub fn byte_len(s: &str) -> (r: usize)
    ensures
        r == encode_utf8(s@).len(),
{
    s.as_bytes().len()
}

/// Whether two strings hold the same characters.
pub fn same(a: &str, b: &str) -> (r: bool)
    ensures
        r == (a@ == b@),
{
    let x: &[u8] = a.as_bytes();
    let y: &[u8] = b.as_bytes();
    if x.len() != y.len() {
        return false;
    }
    let mut i: usize = 0;
    while i < x.len()
        invariant
            x@ == encode_utf8(a@),
            y@ == encode_utf8(b@),
            x@.len() == y@.len(),
            i <= x@.len(),
            forall|j: int| 0 <= j < i ==> x@[j] == y@[j],
        decreases x@.len() - i,
    {
        if x[i] != y[i] {
            return false;
        }
        i += 1;
    }
    proof {
        assert(x@ =~= y@);
        lemma_encode_injective(a@, b@);
    }
    true
}

/// Whether `s` is one of `list`.
pub fn contains(list: &[String], s: &str) -> (r: bool)
    ensures
        r == list.deep_view().contains(s@),
{
    let mut i: usize = 0;
    while i < list.len()
        invariant
            i <= list@.len(),
            forall|j: int| 0 <= j < i ==> list@[j]@ != s@,
        decreases list@.len() - i,
    {
        if same(list[i].as_str(), s) {
            assert(list.deep_view()[i as int] == s@);
            return true;
        }
        i += 1;
    }
    assert(!list.deep_view().contains(s@)) by {
        if list.deep_view().contains(s@) {
            let j = choose|j: int| 0 <= j < list.deep_view().len() && list.deep_view()[j] == s@;
            assert(list@[j]@ == s@);
        }
    }
    false
}

/// The characters of `s`, one slot each.
pub fn chars(s: &str) -> (r: Vec<char>)
    ensures
        r@ == s@,
{
    let mut out: Vec<char> = Vec::new();
    for c in it: s.chars()
        invariant
            out@ == s@.take(it.index()),
            it.seq() == s@,
    {
        proof {
            assert(s@.take(it.index()).push(c) =~= s@.take(it.index() + 1));
        }
        out.push(c);
    }
    assert(s@.take(s@.len() as int) =~= s@);
    out
}

/// The string of `cs[from..to]`.
pub fn string_of(cs: &[char], from: usize, to: usize) -> (r: String)
    requires
        from <= to <= cs@.len(),
    ensures
        r@ == cs@.subrange(from as int, to as int),
{
    let mut out: String = String::new();
    let mut i: usize = from;
    while i < to
        invariant
            from <= i <= to <= cs@.len(),
            out@ == cs@.subrange(from as int, i as int),
        decreases to - i,
    {
        out.push(cs[i]);
        assert(cs@.subrange(from as int, i as int).push(cs@[i as int]) =~= cs@.subrange(
            from as int,
            i + 1,
        ));
        i += 1;
    }
    out
}

/// Whether `s` begins with `prefix`.
pub fn starts_with(s: &str, prefix: &str) -> (r: bool)
    ensures
        r == prefix@.is_prefix_of(s@),
{
    let a: Vec<char> = chars(s);
    let p: Vec<char> = chars(prefix);
    if p.len() > a.len() {
        return false;
    }
    let mut i: usize = 0;
    while i < p.len()
        invariant
            a@ == s@,
            p@ == prefix@,
            p@.len() <= a@.len(),
            i <= p@.len(),
            forall|j: int| 0 <= j < i ==> a@[j] == p@[j],
        decreases p@.len() - i,
    {
        if a[i] != p[i] {
            assert(s@.subrange(0, p@.len() as int)[i as int] == a@[i as int]);
            return false;
        }
        i += 1;
    }
    assert(prefix@ =~= s@.subrange(0, prefix@.len() as int));
    true
}

/// A copy of a list of strings.
pub fn clone_strings(v: &Vec<String>) -> (r: Vec<String>)
    ensures
        r.deep_view() == v.deep_view(),
{
    let r = v.clone();
    assert(r.deep_view() =~= v.deep_view());
    r
}

/// A copy of an optional string.
pub fn clone_optional(s: &Option<String>) -> (r: Option<String>)
    ensures
        r.deep_view() == s.deep_view(),
{
    match s {
        Some(t) => Some(t.clone()),
        None => None,
    }
}

} // verus!
