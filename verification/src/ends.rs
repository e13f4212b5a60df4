//! The two ends of a pipeline that touch the outside world: `In`, which
//! hands out bytes read into a buffer, and `Out`, which turns items into the
//! pieces to be written. Reading and writing are left to the caller: `In`
//! says when it needs a read and is then given what was read, and `Out`
//! hands back what each item is written as.
use vstd::prelude::*;
use vstd::utf8::{encode_scalar, valid_utf8, decode_utf8};
use crate::item::{Byte, Num, PipeType, PipeTypeHint};
use crate::stream::{Stream, pulled, advanced, lemma_advanced_once};
use crate::codec::{encode_char, law_char_round_trip};

verus! {

/// How many bytes one read can fill.
pub const BUFFER_SIZE: usize = 32;

/// What `In` does on a pull.
pub enum InStep {
    /// A byte from the buffer.
    Item(PipeType),
    /// The input has ended: the pull returns `None`.
    Done,
    /// The buffer is used up: a read must be made and handed to `complete_read`.
    Read,
}

/// Hands out the bytes of an input read in blocks of up to `BUFFER_SIZE`,
/// until a read finds no more bytes.
pub struct In {
    buf: [Byte; 32],
    size: usize,
    offset: usize,
    exhausted: bool,
}

impl In {
    /// The buffer's contents.
    pub closed spec fn buffer(&self) -> Seq<u8> {
        self.buf@
    }

    /// How many bytes the last read filled.
    pub closed spec fn filled(&self) -> usize {
        self.size
    }

    /// How many bytes of the buffer have been handed out.
    pub closed spec fn position(&self) -> usize {
        self.offset
    }

    /// A read fills at most the whole buffer.
    pub closed spec fn wf(&self) -> bool {
        self.size <= 32 && self.offset <= 32
    }

    /// Whether no read is to be made any more.
    pub closed spec fn exhausted(&self) -> bool {
        self.exhausted
    }

    /// The bytes read and not yet handed out.
    pub open spec fn unread(&self) -> Seq<u8> {
        if self.position() < self.filled() {
            self.buffer().subrange(self.position() as int, self.filled() as int)
        } else {
            Seq::empty()
        }
    }

    pub fn new() -> (r: In)
        ensures
            r.wf(),
            r.buffer() == Seq::new(32, |i: int| 0u8),
            r.filled() == 0,
            r.position() == 0,
            !r.exhausted(),
    {
        let r = In { buf: [0; 32], size: 0, offset: 0, exhausted: false };
        assert(r.buf@ =~= Seq::new(32, |i: int| 0u8));
        r
    }

    /// Never a size: the input's length is not known.
    pub fn size_hint(&self) -> (r: Option<usize>)
        ensures
            r is None,
    {
        None
    }

    pub fn type_hint(&self) -> (r: PipeTypeHint)
        ensures
            r == PipeTypeHint::Byte,
    {
        PipeTypeHint::Byte
    }

    /// The first half of a pull: `Done` once exhausted with every byte read
    /// handed out; `Read` when the buffer is used up; otherwise the next byte.
    pub fn next_step(&mut self) -> (r: InStep)
        requires
            old(self).wf(),
        ensures
            final(self).wf(),
            old(self).exhausted() && old(self).position() >= old(self).filled() ==> r is Done
                && *final(self) == *old(self),
            !old(self).exhausted() && old(self).position() >= old(self).filled() ==> r is Read
                && *final(self) == *old(self),
            r matches InStep::Item(x) ==> in_pulled(*old(self), *final(self), None, Some(x)),
            r is Done ==> in_pulled(*old(self), *final(self), None, None),
            r is Read ==> old(self).unread().len() == 0 && !old(self).exhausted(),
            old(self).position() < old(self).filled() ==> {
                &&& old(self).position() < 32
                &&& r == InStep::Item(PipeType::Byte(old(self).buffer()[old(self).position() as int]))
                &&& final(self).position() == old(self).position() + 1
                &&& final(self).buffer() == old(self).buffer()
                &&& final(self).filled() == old(self).filled()
                &&& final(self).exhausted() == old(self).exhausted()
            },
    {
        if self.offset >= self.size {
            if self.exhausted {
                return InStep::Done;
            }
            return InStep::Read;
        }
        let b = self.buf[self.offset];
        self.offset = self.offset + 1;
        proof {
            assert(self.unread() =~= old(self).unread().drop_first());
        }
        InStep::Item(PipeType::Byte(b))
    }

    /// A copy of the buffer to read into, so that the bytes a read does not
    /// reach keep their values.
    pub fn read_target(&self) -> (r: [Byte; 32])
        ensures
            r@ == self.buffer(),
    {
        self.buf
    }

    /// The second half of a pull that needed a read: `read` is the buffer
    /// after a read that filled `n` bytes, or `None` when the read failed.
    /// A failed read or a read of no bytes (the end of the input) ends the
    /// input; otherwise the first byte read is handed out.
    pub fn complete_read(&mut self, read: Option<([Byte; 32], usize)>) -> (r: Option<PipeType>)
        requires
            old(self).wf(),
            read matches Some((data, n)) ==> n <= 32,
        ensures
            final(self).wf(),
            (read is None || read matches Some((_, 0usize))) ==> {
                &&& r is None
                &&& final(self).exhausted()
                &&& final(self).position() >= final(self).filled()
                &&& final(self).buffer() == old(self).buffer()
            },
            old(self).unread().len() == 0 && !old(self).exhausted() ==> in_pulled(
                *old(self),
                *final(self),
                Some(read_data(read)),
                r,
            ),
            read matches Some((data, n)) ==> (n > 0 ==> {
                &&& r == Some(PipeType::Byte(data@[0]))
                &&& final(self).buffer() == data@
                &&& final(self).filled() == n
                &&& final(self).position() == 1
                &&& !final(self).exhausted()
            }),
    {
        match read {
            None => {
                self.exhausted = true;
                self.size = 0;
                self.offset = BUFFER_SIZE;
                proof {
                    assert(read_data(read).len() == 0);
                    assert(self.unread().len() == 0);
                }
                None
            },
            Some((data, n)) => {
                if n == 0 {
                    self.exhausted = true;
                    self.size = 0;
                    self.offset = 0;
                    proof {
                        assert(read_data(read) =~= Seq::<u8>::empty());
                    }
                    return None;
                }
                self.buf = data;
                self.offset = 0;
                self.size = n;
                self.exhausted = false;
                let b = self.buf[self.offset];
                self.offset = self.offset + 1;
                proof {
                    assert(self.unread() =~= read_data(read).drop_first());
                }
                Some(PipeType::Byte(b))
            },
        }
    }
}

/// The bytes a read gave: those it filled, or none when it failed.
pub open spec fn read_data(read: Option<([Byte; 32], usize)>) -> Seq<u8> {
    match read {
        Some((data, n)) => data@.subrange(0, n as int),
        None => Seq::empty(),
    }
}

/// One pull of `In`, from `a` to `b`, returning `r`, in which `read` is the
/// read made, if one was (its bytes; none when it failed or found nothing):
/// a byte read before is handed out without a read; once the input has
/// ended, `None`; otherwise a read is made, and its first byte handed out,
/// or, when it gave none, the input ends.
pub open spec fn in_pulled(a: In, b: In, read: Option<Seq<u8>>, r: Option<PipeType>) -> bool {
    if a.unread().len() > 0 {
        &&& read is None
        &&& r == Some(PipeType::Byte(a.unread()[0]))
        &&& b.unread() == a.unread().drop_first()
        &&& b.exhausted() == a.exhausted()
    } else if a.exhausted() {
        &&& read is None
        &&& r is None
        &&& b.unread().len() == 0
        &&& b.exhausted()
    } else {
        &&& read matches Some(d)
        &&& d.len() == 0 ==> r is None && b.unread().len() == 0 && b.exhausted()
        &&& d.len() > 0 ==> r == Some(PipeType::Byte(d[0])) && b.unread() == d.drop_first() && !b.exhausted()
    }
}

/// A run of pulls of `In`: `ins[i + 1]` is reached from `ins[i]` by a pull
/// that made the read `reads[i]` and returned `rs[i]`.
pub open spec fn in_run(ins: Seq<In>, reads: Seq<Option<Seq<u8>>>, rs: Seq<Option<PipeType>>) -> bool {
    &&& ins.len() == rs.len() + 1
    &&& reads.len() == rs.len()
    &&& forall|i: int| #![trigger rs[i]] 0 <= i < rs.len() ==> in_pulled(ins[i], ins[i + 1], reads[i], rs[i])
}

/// The bytes of the reads made, one read after another.
pub open spec fn bytes_read(reads: Seq<Option<Seq<u8>>>) -> Seq<u8>
    decreases reads.len(),
{
    if reads.len() == 0 {
        Seq::empty()
    } else {
        bytes_read(reads.drop_last()) + match reads.last() {
            Some(d) => d,
            None => Seq::empty(),
        }
    }
}

/// The bytes held by the byte results of a record, in order.
pub open spec fn bytes_handed(rs: Seq<Option<PipeType>>) -> Seq<u8>
    decreases rs.len(),
{
    if rs.len() == 0 {
        Seq::empty()
    } else {
        bytes_handed(rs.drop_last()) + match rs.last() {
            Some(PipeType::Byte(b)) => seq![b],
            _ => Seq::empty(),
        }
    }
}

/// Over any run of pulls of a fresh `In`: it hands out every byte read, in
/// the order read, each once (what it handed out followed by what it still
/// holds is everything read); every result is a byte or `None`; and from the
/// first `None` on (a read that found nothing or failed) it returns `None`
/// on every pull and makes no read.
pub proof fn law_in_stream(ins: Seq<In>, reads: Seq<Option<Seq<u8>>>, rs: Seq<Option<PipeType>>)
    requires
        in_run(ins, reads, rs),
        ins[0].unread().len() == 0,
        !ins[0].exhausted(),
    ensures
        bytes_handed(rs) + ins.last().unread() == bytes_read(reads),
        forall|i: int| 0 <= i < rs.len() ==> (#[trigger] rs[i] matches Some(x) ==> x is Byte),
        forall|i: int, j: int| 0 <= i < j < rs.len() && #[trigger] rs[i] is None ==> #[trigger] rs[j] is None
            && reads[j] is None,
        (exists|i: int| 0 <= i < rs.len() && #[trigger] rs[i] is None) ==> ins.last().exhausted()
            && ins.last().unread().len() == 0,
        (forall|i: int| 0 <= i < rs.len() ==> #[trigger] rs[i] is Some) ==> !ins.last().exhausted(),
    decreases rs.len(),
{
    if rs.len() == 0 {
        assert(bytes_handed(rs) + ins.last().unread() =~= bytes_read(reads));
    } else {
        let n = rs.len() - 1;
        let ins0 = ins.drop_last();
        let reads0 = reads.drop_last();
        let rs0 = rs.drop_last();
        assert forall|i: int| #![trigger rs0[i]] 0 <= i < rs0.len() implies in_pulled(ins0[i], ins0[i + 1], reads0[i], rs0[i]) by {
            assert(rs0[i] == rs[i]);
        }
        law_in_stream(ins0, reads0, rs0);
        assert(in_pulled(ins[n], ins[n + 1], reads[n], rs[n]));
        let a = ins[n];
        let b = ins.last();
        let r = rs[n];
        assert(ins0.last() == a);
        assert(rs.last() == r && reads.last() == reads[n]);
        assert forall|i: int| 0 <= i < rs.len() implies (#[trigger] rs[i] matches Some(x) ==> x is Byte) by {
            if i < n {
                assert(rs[i] == rs0[i]);
            }
        }
        if exists|i: int| 0 <= i < rs0.len() && #[trigger] rs0[i] is None {
            assert(a.exhausted() && a.unread().len() == 0);
        } else {
            assert forall|i: int| 0 <= i < rs0.len() implies #[trigger] rs0[i] is Some by {}
            assert(!a.exhausted());
        }
        assert forall|i: int, j: int| 0 <= i < j < rs.len() && #[trigger] rs[i] is None implies #[trigger] rs[j]
            is None && reads[j] is None by {
            if j < n {
                assert(rs[i] == rs0[i] && rs[j] == rs0[j] && reads[j] == reads0[j]);
            } else {
                assert(rs[i] == rs0[i]);
                assert(exists|k: int| 0 <= k < rs0.len() && #[trigger] rs0[k] is None);
            }
        }
        if exists|i: int| 0 <= i < rs.len() && #[trigger] rs[i] is None {
            let i = choose|i: int| 0 <= i < rs.len() && #[trigger] rs[i] is None;
            if i < n {
                assert(rs0[i] is None);
            }
        }
        if forall|i: int| 0 <= i < rs.len() ==> #[trigger] rs[i] is Some {
            assert forall|i: int| 0 <= i < rs0.len() implies #[trigger] rs0[i] is Some by {
                assert(rs[i] == rs0[i]);
            }
            assert(rs[n] is Some);
        }
        let h0 = bytes_handed(rs0);
        assert(rs0.push(r) =~= rs);
        assert(reads0.push(reads[n]) =~= reads);
        if a.unread().len() > 0 {
            assert(h0 + seq![a.unread()[0]] + b.unread() =~= h0 + a.unread());
        } else if a.exhausted() {
            assert(h0 + b.unread() =~= h0 + a.unread());
        } else {
            let d = reads[n]->0;
            if d.len() > 0 {
                assert(h0 + seq![d[0]] + b.unread() =~= (h0 + a.unread()) + d);
            } else {
                assert(h0 + b.unread() =~= (h0 + a.unread()) + d);
            }
        }
    }
}

/// One piece of output: a raw byte, or a number to be written in decimal
/// followed by a line end.
pub enum OutPiece {
    Raw(u8),
    Num(Num),
}

/// What an item is written as: a byte as itself, a character as its UTF-8
/// bytes, a number as a line of its own, a group as what its present items
/// are written as, followed by a line end.
pub open spec fn render(item: PipeType) -> Seq<OutPiece>
    decreases item, 0nat,
{
    match item {
        PipeType::Byte(b) => seq![OutPiece::Raw(b)],
        PipeType::Char(c) => encode_scalar(c as u32).map_values(|b: u8| OutPiece::Raw(b)),
        PipeType::Num(n) => seq![OutPiece::Num(n)],
        PipeType::Multi(p) => render_members(p@).push(OutPiece::Raw(10u8)),
    }
}

/// What the present members of a group are written as, one after the other.
pub open spec fn render_members(s: Seq<Option<PipeType>>) -> Seq<OutPiece>
    decreases s, s.len(),
{
    if s.len() == 0 {
        Seq::empty()
    } else {
        render_members(s.drop_last()) + match s.last() {
            Some(x) => render(x),
            None => Seq::empty(),
        }
    }
}

/// What each item is written as, one item at a time.
pub fn output(item: &PipeType) -> (r: Vec<OutPiece>)
    ensures
        r@ == render(*item),
    decreases item,
{
    match item {
        PipeType::Byte(b) => vec![OutPiece::Raw(*b)],
        PipeType::Char(c) => {
            let (enc, n) = encode_char(*c);
            let ghost e = encode_scalar(*c as u32);
            let mut v: Vec<OutPiece> = Vec::new();
            let mut i: usize = 0;
            while i < n
                invariant
                    1 <= n <= 4,
                    i <= n,
                    enc@.subrange(0, n as int) == e,
                    v@ == e.subrange(0, i as int).map_values(|b: u8| OutPiece::Raw(b)),
                decreases n - i,
            {
                proof {
                    assert(e[i as int] == enc@[i as int]);
                }
                v.push(OutPiece::Raw(enc[i]));
                i = i + 1;
                proof {
                    assert(v@ =~= e.subrange(0, i as int).map_values(|b: u8| OutPiece::Raw(b)));
                }
            }
            proof {
                assert(e.subrange(0, n as int) =~= e);
            }
            v
        },
        PipeType::Num(n) => vec![OutPiece::Num(*n)],
        PipeType::Multi(p) => {
            let mut v: Vec<OutPiece> = Vec::new();
            let mut i: usize = 0;
            while i < p.len()
                invariant
                    *item == PipeType::Multi(*p),
                    i <= p@.len(),
                    v@ == render_members(p@.subrange(0, i as int)),
                decreases p@.len() - i,
            {
                proof {
                    assert(p@.subrange(0, i + 1).drop_last() =~= p@.subrange(0, i as int));
                    assert(p@.subrange(0, i + 1).last() == p@[i as int]);
                }
                match &p[i] {
                    Some(x) => {
                        proof {
                            assert(decreases_to!(*item => (*item)->Multi_0));
                            assert((*item)->Multi_0 == *p);
                            assert(decreases_to!(*p => p@));
                            assert(decreases_to!(p@ => p@[i as int]));
                            assert(decreases_to!(p@[i as int] => p@[i as int]->0));
                        }
                        let mut w = output(x);
                        v.append(&mut w);
                    },
                    None => {
                        proof {
                            assert(v@ + Seq::<OutPiece>::empty() =~= v@);
                        }
                    },
                }
                i = i + 1;
            }
            proof {
                assert(p@.subrange(0, p@.len() as int) =~= p@);
            }
            v.push(OutPiece::Raw(10));
            v
        },
    }
}

/// The bytes a list of pieces writes raw, in order (a number, written as a
/// line of its own, adds none).
pub open spec fn raw_bytes(ps: Seq<OutPiece>) -> Seq<u8>
    decreases ps.len(),
{
    if ps.len() == 0 {
        Seq::empty()
    } else {
        raw_bytes(ps.drop_last()) + match ps.last() {
            OutPiece::Raw(b) => seq![b],
            OutPiece::Num(_) => Seq::empty(),
        }
    }
}

/// Raw bytes written from a byte sequence, in order, are that sequence.
proof fn lemma_raw_bytes_of(e: Seq<u8>)
    ensures
        raw_bytes(e.map_values(|b: u8| OutPiece::Raw(b))) == e,
    decreases e.len(),
{
    if e.len() > 0 {
        let d = e.drop_last();
        lemma_raw_bytes_of(d);
        assert(e.map_values(|b: u8| OutPiece::Raw(b)).drop_last() =~= d.map_values(|b: u8| OutPiece::Raw(b)));
        assert(e.map_values(|b: u8| OutPiece::Raw(b)).last() == OutPiece::Raw(e.last()));
        assert(d + seq![e.last()] =~= e);
    }
}

/// A character is written as raw bytes only, which are valid UTF-8 and
/// decode to exactly that character: nothing of it is lost or added.
pub proof fn law_output_char_decodes(c: char)
    ensures
        forall|i: int| 0 <= i < render(PipeType::Char(c)).len() ==> #[trigger] render(PipeType::Char(c))[i] is Raw,
        valid_utf8(raw_bytes(render(PipeType::Char(c)))),
        decode_utf8(raw_bytes(render(PipeType::Char(c)))) == seq![c],
{
    let e = encode_scalar(c as u32);
    lemma_raw_bytes_of(e);
    law_char_round_trip(c);
}

/// A byte is written as itself, raw; a number as one line of its own.
pub proof fn law_output_byte_and_number(b: u8, n: Num)
    ensures
        raw_bytes(render(PipeType::Byte(b))) == seq![b],
        render(PipeType::Byte(b)).len() == 1,
        render(PipeType::Num(n)) == seq![OutPiece::Num(n)],
{
    let ps = render(PipeType::Byte(b));
    assert(ps.drop_last() =~= Seq::<OutPiece>::empty());
    assert(raw_bytes(ps.drop_last()) =~= Seq::<u8>::empty());
    assert(ps.last() == OutPiece::Raw(b));
    assert(raw_bytes(ps) =~= seq![b]);
}

/// Raw bytes of pieces written one list after another.
proof fn lemma_raw_bytes_concat(a: Seq<OutPiece>, b: Seq<OutPiece>)
    ensures
        raw_bytes(a + b) == raw_bytes(a) + raw_bytes(b),
    decreases b.len(),
{
    if b.len() == 0 {
        assert(a + b =~= a);
        assert(raw_bytes(a) + raw_bytes(b) =~= raw_bytes(a));
    } else {
        lemma_raw_bytes_concat(a, b.drop_last());
        assert((a + b).drop_last() =~= a + b.drop_last());
        assert((a + b).last() == b.last());
        let t = match b.last() {
            OutPiece::Raw(x) => seq![x],
            OutPiece::Num(_) => Seq::<u8>::empty(),
        };
        assert(raw_bytes(a) + raw_bytes(b.drop_last()) + t =~= raw_bytes(a) + (raw_bytes(b.drop_last()) + t));
    }
}

/// The bytes held by the bytes present in a group, in order.
pub open spec fn present_bytes(v: Seq<Option<PipeType>>) -> Seq<u8>
    decreases v.len(),
{
    if v.len() == 0 {
        Seq::empty()
    } else {
        present_bytes(v.drop_last()) + match v.last() {
            Some(PipeType::Byte(b)) => seq![b],
            _ => Seq::empty(),
        }
    }
}

/// Members of bytes are written as those bytes.
proof fn lemma_members_of_bytes(v: Seq<Option<PipeType>>)
    requires
        forall|i: int| 0 <= i < v.len() ==> (#[trigger] v[i] matches Some(x) ==> x is Byte),
    ensures
        raw_bytes(render_members(v)) == present_bytes(v),
    decreases v.len(),
{
    if v.len() > 0 {
        let d = v.drop_last();
        assert forall|i: int| 0 <= i < d.len() implies (#[trigger] d[i] matches Some(x) ==> x is Byte) by {
            assert(d[i] == v[i]);
        }
        lemma_members_of_bytes(d);
        assert(v.last() == v[v.len() - 1]);
        match v.last() {
            Some(x) => {
                law_output_byte_and_number(x->Byte_0, 0);
                lemma_raw_bytes_concat(render_members(d), render(x));
            },
            None => {
                assert(render_members(v) =~= render_members(d));
                assert(present_bytes(v) =~= present_bytes(d));
            },
        }
    }
}

/// A group of bytes is written as the bytes present in it, in order, then
/// a line end.
pub proof fn law_output_group_of_bytes(v: Seq<Option<PipeType>>, g: Vec<Option<PipeType>>)
    requires
        g@ == v,
        forall|i: int| 0 <= i < v.len() ==> (#[trigger] v[i] matches Some(x) ==> x is Byte),
    ensures
        raw_bytes(render(PipeType::Multi(g))) == present_bytes(v).push(10u8),
{
    lemma_members_of_bytes(v);
    let ps = render(PipeType::Multi(g));
    assert(ps.drop_last() =~= render_members(v));
    assert(ps.last() == OutPiece::Raw(10u8));
}

/// Turns the items of its input into the pieces they are written as.
pub struct Out<S> {
    input: S,
}

impl<S: Stream> Out<S> {
    /// The stream being written out.
    pub closed spec fn input(&self) -> S {
        self.input
    }

    pub closed spec fn wf(&self) -> bool {
        self.input.wf()
    }

    /// A writer for `input`; any kind of item is accepted.
    pub fn new(input: S) -> (r: Self)
        requires
            input.wf(),
        ensures
            r.wf(),
            r.input() == input,
    {
        Out { input }
    }

    pub fn size_hint(&self) -> (r: Option<usize>)
        requires
            self.wf(),
        ensures
            r == self.input().size(),
    {
        self.input.size_hint()
    }

    /// The writer itself yields nothing.
    pub fn type_hint(&self) -> (r: PipeTypeHint)
        ensures
            r == PipeTypeHint::Nothing,
    {
        PipeTypeHint::Nothing
    }

    /// Pulls one item and returns what it is written as, or `None` when the
    /// input returns `None`.
    pub fn pull(&mut self) -> (r: Option<Vec<OutPiece>>)
        requires
            old(self).wf(),
        ensures
            final(self).wf(),
            ({
                let p = pulled(old(self).input(), final(self).input());
                &&& p.len() == 1
                &&& p[0] is None ==> r is None
                &&& p[0] matches Some(x) ==> (r matches Some(v) && v@ == render(x))
            }),
            advanced(old(self).input(), final(self).input()),
    {
        let ghost start = self.input;
        let x = self.input.next();
        proof {
            assert(pulled(start, self.input) =~= seq![x]);
            lemma_advanced_once(start, self.input, x);
        }
        match x {
            Some(item) => Some(output(&item)),
            None => None,
        }
    }
}

} // verus!
