//! The tape, written down.
use std::collections::VecDeque;

use vstd::prelude::*;

use crate::api_types::{FrameView, SeriesOut, TopoNode};
use crate::cost::Cost;
use crate::keeping::lemma_under;
use crate::model::{under, TapeView, TickView};
use crate::replay::{held_at, least};
use crate::tape::{all_legible, index, nats, Inner, Tick};
use crate::text::clone_optional;
use crate::walking::a_quiet_node_shows_its_last_fire;

verus! {

/// The layout of everything after the header.
pub const TAPE_SCHEMA: u32 = 2;

/// How long the header is: what a tape file opens with, and the schema.
pub const HEADER: usize = 12;

/// What a tape file opens with, so a file that is not one is refused before it is decoded.
pub open spec fn magic() -> Seq<u8> {
    seq![0x45u8, 0x58, 0x45, 0x43, 0x56, 0x49, 0x5a, 0x54]
}

/// A number's four bytes, least significant first.
pub open spec fn le_bytes(n: u32) -> Seq<u8> {
    seq![
        (n % 256) as u8,
        ((n / 256) % 256) as u8,
        ((n / 65536) % 256) as u8,
        (n / 16777216) as u8,
    ]
}

/// The number four bytes stand for, least significant first.
pub open spec fn le_number(b: Seq<u8>) -> int {
    b[0] + 256 * b[1] + 65536 * b[2] + 16777216 * b[3]
}

/// A tape file holding `payload`.
pub open spec fn framed(payload: Seq<u8>) -> Seq<u8> {
    magic() + le_bytes(TAPE_SCHEMA) + payload
}

/// Why a file is not read.
#[derive(Clone, Copy, Debug, PartialEq, Eq)]
pub enum FileError {
    /// It ends inside the header.
    Truncated,
    /// It does not open as a tape does.
    NotATape,
    /// It is a tape of another layout.
    Schema(u32),
}

/// What is wrong with the header of `bytes`, if anything.
pub open spec fn header_error(bytes: Seq<u8>) -> Option<FileError> {
    if bytes.len() < 8 {
        Some(FileError::Truncated)
    } else if bytes.take(8) != magic() {
        Some(FileError::NotATape)
    } else if bytes.len() < HEADER {
        Some(FileError::Truncated)
    } else if le_number(bytes.subrange(8, 12)) != TAPE_SCHEMA {
        Some(FileError::Schema(le_number(bytes.subrange(8, 12)) as u32))
    } else {
        None
    }
}

/// The header of a tape file.
pub fn header() -> (r: Vec<u8>)
    ensures
        r@ == magic() + le_bytes(TAPE_SCHEMA),
        r@.len() == HEADER,
{
    let mut r: Vec<u8> = Vec::new();
    r.push(0x45);
    r.push(0x58);
    r.push(0x45);
    r.push(0x43);
    r.push(0x56);
    r.push(0x49);
    r.push(0x5a);
    r.push(0x54);
    r.push((TAPE_SCHEMA % 256) as u8);
    r.push(((TAPE_SCHEMA / 256) % 256) as u8);
    r.push(((TAPE_SCHEMA / 65536) % 256) as u8);
    r.push((TAPE_SCHEMA / 16777216) as u8);
    assert(r@ =~= magic() + le_bytes(TAPE_SCHEMA));
    r
}

/// Reads the header of `bytes`; what follows it starts at the offset handed back.
pub fn read_header(bytes: &[u8]) -> (r: Result<usize, FileError>)
    ensures
        match r {
            Ok(at) => at == HEADER && header_error(bytes@) is None,
            Err(e) => header_error(bytes@) == Some(e),
        },
{
    if bytes.len() < 8 {
        return Err(FileError::Truncated);
    }
    let m: bool = bytes[0] == 0x45 && bytes[1] == 0x58 && bytes[2] == 0x45 && bytes[3] == 0x43
        && bytes[4] == 0x56 && bytes[5] == 0x49 && bytes[6] == 0x5a && bytes[7] == 0x54;
    proof {
        let t = bytes@.take(8);
        if m {
            assert(t =~= magic());
        } else {
            assert(t[0] != magic()[0] || t[1] != magic()[1] || t[2] != magic()[2] || t[3]
                != magic()[3] || t[4] != magic()[4] || t[5] != magic()[5] || t[6] != magic()[6]
                || t[7] != magic()[7]);
        }
    }
    if !m {
        return Err(FileError::NotATape);
    }
    if bytes.len() < HEADER {
        return Err(FileError::Truncated);
    }
    let schema: u32 = bytes[8] as u32 + 256 * (bytes[9] as u32) + 65536 * (bytes[10] as u32)
        + 16777216 * (bytes[11] as u32);
    assert(schema == le_number(bytes@.subrange(8, 12)));
    if schema != TAPE_SCHEMA {
        return Err(FileError::Schema(schema));
    }
    Ok(HEADER)
}

/// What was framed is read back: the header is accepted and the payload follows it.
pub proof fn a_framed_payload_reads_back(payload: Seq<u8>)
    ensures
        header_error(framed(payload)) is None,
        framed(payload).skip(HEADER as int) == payload,
{
    let f = framed(payload);
    assert(f.take(8) =~= magic());
    assert(f.subrange(8, 12) =~= le_bytes(TAPE_SCHEMA));
    assert(f.skip(HEADER as int) =~= payload);
}

/// The bytes of a number stand for it.
pub proof fn le_bytes_read_back(n: u32)
    ensures
        le_number(le_bytes(n)) == n,
{
}

/// A tape's persisted fields. The seal is not among them: it is what a file is.
pub struct TapeFile {
    pub price_node: Option<String>,
    pub capacity: usize,
    pub bucket_ms: i64,
    pub topology: Vec<TopoNode>,
    pub cost: Vec<Cost>,
    pub ticks: Vec<Tick>,
    pub opened: usize,
    pub fires: Vec<usize>,
    pub keep: Vec<u8>,
    pub dropped: usize,
    pub series: Vec<SeriesOut>,
    pub cursor: usize,
}

impl View for TapeFile {
    type V = TapeView;

    open spec fn view(&self) -> TapeView {
        TapeView {
            price_node: self.price_node.deep_view(),
            capacity: self.capacity as nat,
            bucket_ms: self.bucket_ms,
            topology: self.topology.deep_view(),
            cost: self.cost@,
            ticks: self.ticks.deep_view(),
            opened: self.opened as nat,
            fires: nats(self.fires@),
            keep: self.keep@,
            sealed: true,
            dropped: self.dropped as nat,
            series: self.series.deep_view(),
            cursor: self.cursor as nat,
        }
    }
}

impl TapeFile {
    /// The file holds a tape that can be walked.
    pub open spec fn wf(self) -> bool {
        self@.ok() && all_legible(self.ticks@)
    }
}

impl Clone for Tick {
    fn clone(&self) -> (r: Self)
        ensures
            r.deep_view() == self.deep_view(),
            r.legible() == self.legible(),
    {
        let ranks: Vec<u8> = self.ranks.clone();
        assert(ranks@ =~= self.ranks@);
        Tick { abs: self.abs, ts_ns: self.ts_ns, acts: self.acts.clone(), ranks }
    }
}

impl Inner {
    /// What is written down of a recording: what is addressable of it, which once it is over is all of
    /// it. What lands is what the tape holds: a thinned run saves thinned, because that is the
    /// recording.
    pub fn to_file(&self) -> (r: TapeFile)
        requires
            self.wf(),
        ensures
            r.wf(),
            r@ == self@.addressable(),
    {
        let n: usize = match self.last() {
            Some(l) => l + 1,
            None => 0,
        };
        let mut ticks: Vec<Tick> = Vec::new();
        let mut p: usize = 0;
        while p < n
            invariant
                all_legible(self.ticks@),
                p <= n <= self.ticks@.len(),
                ticks@.len() == p,
                all_legible(ticks@),
                forall|q: int|
                    #![trigger ticks@[q]]
                    0 <= q < p ==> ticks@[q].deep_view() == self.ticks@[q].deep_view(),
            decreases n - p,
        {
            assert(self.ticks@[p as int].legible());
            ticks.push(self.ticks[p].clone());
            p += 1;
        }
        let topology: Vec<TopoNode> = self.topology.clone();
        let cost: Vec<Cost> = self.cost.clone();
        let fires: Vec<usize> = self.fires.clone();
        let keep: Vec<u8> = self.keep.clone();
        let series: Vec<SeriesOut> = self.series.clone();
        let r = TapeFile {
            price_node: clone_optional(&self.price_node),
            capacity: self.capacity,
            bucket_ms: self.bucket_ms,
            topology,
            cost,
            ticks,
            opened: self.head(),
            fires,
            keep,
            dropped: self.dropped,
            series,
            cursor: self.cursor,
        };
        proof {
            assert(r.topology.deep_view() =~= self.topology.deep_view());
            assert(r.cost@ =~= self.cost@);
            assert(r.fires@ =~= self.fires@);
            assert(r.keep@ =~= self.keep@);
            assert(r.series.deep_view() =~= self.series.deep_view());
            assert(r.ticks.deep_view() =~= self@.addressable().ticks);
            assert(r@ =~= self@.addressable());
            a_tape_ends_where_it_is_addressable(self@);
        }
        r
    }

    /// A tape read back. Sealed by definition: a file does not grow. The index is built rather than
    /// read, so it cannot disagree with the ticks beside it.
    pub fn from_file(file: TapeFile) -> (r: Inner)
        requires
            file.wf(),
        ensures
            r.wf(),
            r@ == file@,
    {
        let ghost fv = file@;
        let TapeFile {
            price_node,
            capacity,
            bucket_ms,
            topology,
            cost,
            ticks: list,
            opened,
            fires,
            keep,
            dropped,
            series,
            cursor,
        } = file;
        let mut rest: Vec<Tick> = list;
        let ghost all = rest@;
        let mut ticks: VecDeque<Tick> = VecDeque::new();
        while rest.len() > 0
            invariant
                rest@.len() <= all.len(),
                rest@ == all.take(rest@.len() as int),
                ticks@ == all.skip(rest@.len() as int),
            decreases rest@.len(),
        {
            let ghost n = rest@.len() as int;
            match rest.pop() {
                Some(t) => {
                    ticks.push_front(t);
                    assert(rest@ =~= all.take(n - 1));
                    assert(ticks@ =~= all.skip(n - 1));
                },
                None => {},
            }
        }
        assert(ticks@ =~= all);
        let fired: Vec<Vec<usize>> = index(&ticks);
        let r = Inner {
            price_node,
            capacity,
            bucket_ms,
            topology,
            cost,
            ticks,
            opened,
            fires,
            keep,
            fired,
            sealed: true,
            dropped,
            series,
            cursor,
        };
        assert(r.ticks.deep_view() =~= fv.ticks);
        assert(r@ =~= fv);
        r
    }
}

/// What stands where the cursor is does not look past it.
proof fn lemma_held_in_front(ticks: Seq<TickView>, i: int, p: int, n: int)
    requires
        p < n <= ticks.len(),
    ensures
        held_at(ticks.take(n), i, p) == held_at(ticks, i, p),
    decreases p + 1,
{
    if p >= 0 && !ticks[p].fires(i) {
        lemma_held_in_front(ticks, i, p - 1, n);
    }
}

/// What is written of a recording, open or over, is a tape, and it reads as the recording did when it
/// was written: the same total, the same place, the same frame but that it is over, and the same graph.
/// Of a recording that is over it is the whole tape, and of any recording the total names a tick that is
/// held.
pub proof fn a_tape_ends_where_it_is_addressable(t: TapeView)
    requires
        t.ok(),
    ensures
        t.addressable().ok(),
        t.addressable().head() == t.head(),
        t.addressable().last() == t.last(),
        t.addressable().pos() == t.pos(),
        t.addressable().frame() == (FrameView { sealed: true, ..t.frame() }),
        t.addressable().outline() == t.outline(),
        t.sealed ==> t.addressable() == t,
        t.sound() ==> t.addressable().ordered(),
{
    let f = t.addressable();
    assert(t.climbs());
    if t.sealed {
        assert(f.ticks =~= t.ticks);
    } else if t.ticks.len() > 1 {
        assert(t.ticks[0].abs < t.ticks[t.ticks.len() - 1].abs);
    }
    assert(f.climbs()) by {
        assert forall|p: int, q: int|
            #![trigger f.ticks[p], f.ticks[q]]
            0 <= p < q < f.ticks.len() implies f.ticks[p].abs < f.ticks[q].abs by {
            assert(t.ticks[p].abs < t.ticks[q].abs);
        }
    }
    assert(f.outline() =~= t.outline());
    match t.last() {
        Some(l) => {
            lemma_under(t.ticks, t.cursor);
            lemma_under(f.ticks, t.cursor);
            let u = under(t.ticks, t.cursor) as int;
            let v = under(f.ticks, t.cursor) as int;
            assert(v == least(u as nat, l + 1)) by {
                if v < u && v < l + 1 {
                    assert(f.ticks[v] == t.ticks[v]);
                    assert(t.ticks[v].abs < t.cursor);
                }
                if u < v {
                    assert(f.ticks[u] == t.ticks[u]);
                    assert(t.ticks[u].abs >= t.cursor);
                }
            }
            let p = t.pos()->Some_0;
            assert(f.pos() == Some(p));
            let a = f.frame().activations;
            let b = t.frame().activations;
            assert(a =~= b) by {
                assert forall|i: int| 0 <= i < a.len() implies a[i] == b[i] by {
                    lemma_held_in_front(t.ticks, i, p as int, l as int + 1);
                    a_quiet_node_shows_its_last_fire(t.ticks, i, p as int);
                    assert(f.standing(i, p) == t.standing(i, p));
                    assert(f.activation(i, p) == t.activation(i, p));
                }
            }
        },
        None => {},
    }
}

impl Tick {
    /// Whether the tick can be shown.
    fn agrees(&self) -> (r: bool)
        ensures
            r == self.legible(),
    {
        self.abs < usize::MAX && self.acts.agrees()
    }
}

impl TapeFile {
    /// Whether the ids ascend.
    fn climbs(&self) -> (r: bool)
        ensures
            r == self@.climbs(),
    {
        let ghost tv = self@.ticks;
        let n: usize = self.ticks.len();
        let mut i: usize = 1;
        while i < n
            invariant
                tv == self@.ticks,
                tv == self.ticks.deep_view(),
                n == self.ticks@.len(),
                1 <= i,
                forall|p: int, q: int|
                    #![trigger tv[p], tv[q]]
                    0 <= p < q < i && q < n ==> tv[p].abs < tv[q].abs,
            decreases n - i,
        {
            assert(tv[i - 1].abs == self.ticks@[i - 1].abs);
            assert(tv[i as int].abs == self.ticks@[i as int].abs);
            if self.ticks[i - 1].abs >= self.ticks[i].abs {
                assert(!(self@.ticks[i - 1].abs < self@.ticks[i as int].abs));
                return false;
            }
            assert forall|p: int, q: int|
                #![trigger tv[p], tv[q]]
                0 <= p < q < i + 1 && q < n implies tv[p].abs < tv[q].abs by {
                if q == i && p < i - 1 {
                    assert(tv[p].abs < tv[i - 1].abs);
                }
            }
            i += 1;
        }
        true
    }

    /// Whether every tick can be shown.
    fn ticks_agree(&self) -> (r: bool)
        ensures
            r == all_legible(self.ticks@),
    {
        let mut p: usize = 0;
        while p < self.ticks.len()
            invariant
                p <= self.ticks@.len(),
                forall|q: int| #![trigger self.ticks@[q]] 0 <= q < p ==> self.ticks@[q].legible(),
            decreases self.ticks@.len() - p,
        {
            if !self.ticks[p].agrees() {
                assert(!self.ticks@[p as int].legible());
                return false;
            }
            p += 1;
        }
        true
    }

    /// Whether the file holds a tape that can be walked: a decoded payload is only bytes in the right
    /// shape. What recording keeps besides is not asked for, since nothing is recorded onto it: it may
    /// be as long as its buffer, and its ranks, counts and series are taken as they are.
    pub fn agrees(&self) -> (r: bool)
        ensures
            r == self.wf(),
    {
        self.topology.len() <= self.cost.len() && self.climbs() && self.ticks_agree()
    }
}

} // verus!
