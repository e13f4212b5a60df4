//! Stages that turn items of one kind into items of another.
use vstd::prelude::*;
use vstd::utf8::{encode_scalar, valid_utf8, decode_utf8, valid_first_scalar, length_of_first_scalar};
use vstd::string::StrSliceExecFns;
use crate::item::{Byte, PipeType, PipeTypeHint};
use crate::source::{Discard, drained};
use crate::stream::{
    Stream, honest, pulled, open_run, yields_only, lemma_open_run_push, byte_values, all_bytes, ascii_items,
    ascii_chars, run, lemma_run_start, lemma_run_push, lemma_run_drop_last, lemma_pulled_push, advanced, lemma_advanced_once, lemma_advanced_step, lemma_advanced_refl,
};
use crate::codec::{
    encode_char, lemma_encode_scalar_first, lemma_valid_then_start, lemma_empty_char_start, char_start,
    utf8_prefix, lemma_utf8_prefix_skip, lemma_first_scalar_valid, law_encodings_prefix_free, lemma_ascii_byte,
    law_char_round_trip,
};

verus! {

/// Turns each character of its input into the bytes of its UTF-8 encoding.
pub struct CharsToBytes<S> {
    input: S,
    leftover: [Byte; 4],
    offset: usize,
    len: usize,
    trace: Ghost<Seq<Option<PipeType>>>,
    done: Ghost<Seq<u8>>,
    current: Ghost<char>,
    origin: Ghost<S>,
}

/// Results that are the bytes `b`, in order.
pub open spec fn byte_results(b: Seq<u8>) -> Seq<Option<PipeType>> {
    b.map_values(|x: u8| Some(PipeType::Byte(x)))
}

/// What an encoder returns for one result it pulls: the bytes of a
/// character, or `None` for anything else.
pub open spec fn encode_piece(x: Option<PipeType>) -> Seq<Option<PipeType>> {
    match x {
        Some(PipeType::Char(c)) => byte_results(encode_scalar(c as u32)),
        _ => seq![None],
    }
}

/// What an encoder returns for the results it pulls, one after the other.
pub open spec fn encode_results(t: Seq<Option<PipeType>>) -> Seq<Option<PipeType>>
    decreases t.len(),
{
    if t.len() == 0 {
        Seq::empty()
    } else {
        encode_results(t.drop_last()) + encode_piece(t.last())
    }
}

/// One more result pulled adds its piece to what an encoder returns.
pub proof fn lemma_encode_results_push(t: Seq<Option<PipeType>>, x: Option<PipeType>)
    ensures
        encode_results(t.push(x)) == encode_results(t) + encode_piece(x),
{
    assert(t.push(x).drop_last() =~= t);
}

/// A byte an encoder over `input` can return: when `input` yields only
/// characters below `0x80`, it is one of those characters as a byte.
pub open spec fn encoded_item<S: Stream>(input: S, x: PipeType) -> bool {
    &&& x matches PipeType::Byte(b)
    &&& ascii_chars(input) ==> exists|c: char| b == c as u32 && #[trigger] (input.yields())(PipeType::Char(c))
}

impl<S: Stream> CharsToBytes<S> {
    /// The stream of characters being encoded.
    pub closed spec fn input(&self) -> S {
        self.input
    }

    /// The input as it stood when the encoder was made.
    pub closed spec fn origin(&self) -> S {
        self.origin@
    }

    /// The bytes of the last character pulled that are still to be returned.
    pub closed spec fn pending(&self) -> Seq<u8> {
        if self.offset < self.len {
            self.leftover@.subrange(self.offset as int, self.len as int)
        } else {
            Seq::empty()
        }
    }

    /// An encoder over `input`, which must yield only characters.
    pub fn uncoerced(input: S) -> (r: Self)
        requires
            input.wf(),
            yields_only(input, PipeTypeHint::Char),
        ensures
            r.wf(),
            r.input() == input,
            r.origin() == input,
            r.pending() == Seq::<u8>::empty(),
            r.hint() == PipeTypeHint::Byte,
            r.size() == input.size(),
            r.yields() == (|x: PipeType| encoded_item(input, x)),
            yields_only(r, PipeTypeHint::Byte),
            honest(r),
            r.finite() == input.finite(),
            r.endless() == input.endless(),
            r.assured() == input.assured(),
            r.budget() == (if ascii_chars(input) {
                input.budget()
            } else {
                4 * input.budget()
            }),
            r.utf8_clean(),
            r.emitted() == Seq::<Option<PipeType>>::empty(),
    {
        let r = CharsToBytes {
            input,
            leftover: [0; 4],
            offset: 0,
            len: 0,
            trace: Ghost(Seq::empty()),
            done: Ghost(Seq::empty()),
            current: Ghost('\0'),
            origin: Ghost(input),
        };
        proof {
            assert(pulled(input, input) =~= Seq::<Option<PipeType>>::empty());
            assert(input.emitted().subrange(0, input.emitted().len() as int) =~= input.emitted());
            assert(byte_results(Seq::<u8>::empty()) =~= Seq::<Option<PipeType>>::empty());
            assert(valid_utf8(Seq::<u8>::empty()));
            assert(open_run(Seq::<Option<PipeType>>::empty()) =~= Seq::<u8>::empty() + Seq::<u8>::empty());
        }
        r
    }
}

impl<S: Stream> Stream for CharsToBytes<S> {
    closed spec fn hint(&self) -> PipeTypeHint {
        PipeTypeHint::Byte
    }

    closed spec fn size(&self) -> Option<usize> {
        self.input.size()
    }

    closed spec fn yields(&self) -> spec_fn(PipeType) -> bool {
        |x: PipeType| encoded_item(self.input, x)
    }

    closed spec fn emitted(&self) -> Seq<Option<PipeType>> {
        self.trace@
    }

    closed spec fn utf8_clean(&self) -> bool {
        true
    }

    closed spec fn endless(&self) -> bool {
        self.input.endless()
    }

    closed spec fn assured(&self) -> nat {
        (self.len - self.offset) as nat + self.input.assured()
    }

    closed spec fn finite(&self) -> bool {
        self.input.finite()
    }

    closed spec fn budget(&self) -> nat {
        if ascii_chars(self.input) {
            self.input.budget()
        } else {
            4 * self.input.budget() + (self.len - self.offset) as nat
        }
    }

    closed spec fn wf(&self) -> bool {
        &&& self.input.wf()
        &&& yields_only(self.input, PipeTypeHint::Char)
        &&& self.offset <= self.len <= 4
        &&& ascii_chars(self.input) ==> self.offset == self.len
        &&& self.offset < self.len ==> {
            &&& 1 <= self.offset
            &&& self.leftover@.subrange(0, self.len as int) == encode_scalar(self.current@ as u32)
        }
        &&& valid_utf8(self.done@)
        &&& open_run(self.trace@) == self.done@ + (if self.offset < self.len {
            self.leftover@.subrange(0, self.offset as int)
        } else {
            Seq::empty()
        })
        &&& self.input.emitted().len() >= self.origin@.emitted().len()
        &&& self.input.emitted().subrange(0, self.origin@.emitted().len() as int) == self.origin@.emitted()
        &&& encode_results(pulled(self.origin@, self.input)) == self.trace@ + byte_results(self.pending())
        &&& self.offset < self.len ==> {
            &&& pulled(self.origin@, self.input).len() > 0
            &&& pulled(self.origin@, self.input).last() == Some(PipeType::Char(self.current@))
        }
    }

    /// The next pending byte if there is one; otherwise one pull: `None` for
    /// `None`, and for a character the first byte of its encoding, the
    /// others pending.
    open spec fn step(&self, after: Self, r: Option<PipeType>) -> bool {
        if self.pending().len() > 0 {
            &&& r == Some(PipeType::Byte(self.pending()[0]))
            &&& after.pending() == self.pending().drop_first()
            &&& after.input() == self.input()
        } else {
            exists|x: Option<PipeType>|
                #[trigger] self.input().step(after.input(), x) && match x {
                    Some(PipeType::Char(c)) => r == Some(PipeType::Byte(encode_scalar(c as u32)[0]))
                        && after.pending() == encode_scalar(c as u32).drop_first(),
                    None => r is None && after.pending().len() == 0,
                    _ => false,
                }
        }
    }

    fn size_hint(&self) -> (r: Option<usize>) {
        self.input.size_hint()
    }

    fn type_hint(&self) -> (r: PipeTypeHint) {
        PipeTypeHint::Byte
    }

    /// Returns the next pending byte; when none is pending, pulls one
    /// character and returns the first byte of its encoding.
    fn next(&mut self) -> (r: Option<PipeType>)
        ensures
            encoded_step(*old(self), *final(self), r),
    {
        if self.offset < self.len {
            let b = self.leftover[self.offset];
            self.offset = self.offset + 1;
            let r = Some(PipeType::Byte(b));
            proof {
                let old_run = open_run(self.trace@);
                lemma_open_run_push(self.trace@, r);
                self.trace@ = self.trace@.push(r);
                assert(open_run(self.trace@) == old_run.push(b));
                assert(self.leftover@.subrange(0, self.offset as int) =~= old(self).leftover@.subrange(
                    0,
                    old(self).offset as int,
                ).push(b));
                if self.offset == self.len {
                    let e = encode_scalar(self.current@ as u32);
                    lemma_encode_scalar_first(self.current@);
                    vstd::utf8::valid_utf8_concat(self.done@, e);
                    self.done@ = self.done@ + e;
                    assert(open_run(self.trace@) =~= self.done@ + Seq::<u8>::empty());
                    lemma_empty_char_start();
                    lemma_valid_then_start(self.done@, Seq::<u8>::empty());
                } else {
                    assert(open_run(self.trace@) =~= self.done@ + self.leftover@.subrange(0, self.offset as int));
                    let e = encode_scalar(self.current@ as u32);
                    assert(self.leftover@.subrange(0, self.offset as int) =~= e.subrange(0, self.offset as int));
                    assert(self.offset < e.len());
                    assert(char_start(self.leftover@.subrange(0, self.offset as int)));
                    lemma_valid_then_start(self.done@, self.leftover@.subrange(0, self.offset as int));
                }
                assert(old(self).pending() == old(self).leftover@.subrange(old(self).offset as int, old(self).len as int));
                assert(self.pending() =~= old(self).pending().drop_first());
                assert(self.trace@ + byte_results(self.pending()) =~= old(self).trace@ + byte_results(
                    old(self).pending(),
                ));
                lemma_advanced_refl(self.input);
            }
            return r;
        }
        let ghost before = self.input;
        let x = self.input.next();
        proof {
            lemma_pulled_push(self.origin@, before, self.input, x);
            lemma_advanced_once(before, self.input, x);
            lemma_encode_results_push(pulled(self.origin@, before), x);
            assert(self.input.emitted().subrange(0, self.origin@.emitted().len() as int) =~= before.emitted().subrange(0, self.origin@.emitted().len() as int));
        }
        match x {
            None => {
                proof {
                    assert(byte_results(Seq::<u8>::empty()) =~= Seq::<Option<PipeType>>::empty());
                    assert(self.trace@.push(None) + byte_results(Seq::<u8>::empty()) =~= (self.trace@ + byte_results(Seq::<u8>::empty())) + seq![None]);
                    lemma_open_run_push(self.trace@, None);
                    self.trace@ = self.trace@.push(None);
                    self.done@ = Seq::empty();
                    assert(valid_utf8(Seq::<u8>::empty()));
                    assert(open_run(self.trace@) =~= self.done@ + Seq::<u8>::empty());
                    lemma_empty_char_start();
                    lemma_valid_then_start(self.done@, Seq::<u8>::empty());
                    assert(pulled(old(self).input, self.input) =~= seq![x]);
                    assert(self.pending() =~= Seq::<u8>::empty());
                    assert(old(self).input().step(self.input(), x));
                    assert(old(self).pending().len() == 0);
                    assert(old(self).step(*self, None));
                }
                None
            },
            Some(item) => {
                let c = item.char();
                let (enc, n) = encode_char(c);
                self.leftover = enc;
                self.len = n;
                self.offset = 1;
                let b = self.leftover[0];
                let r = Some(PipeType::Byte(b));
                proof {
                    let e = encode_scalar(c as u32);
                    lemma_encode_scalar_first(c);
                    if (c as u32) < 0x80 {
                        assert(e.len() == 1);
                        assert(e[0] == c as u32);
                        assert(e[0] == c as u8);
                    }
                    assert((before.yields())(PipeType::Char(c)));
                    if ascii_chars(before) {
                        assert((c as u32) < 0x80);
                        assert(encoded_item(self.input, PipeType::Byte(b)));
                    }
                    let old_run = open_run(self.trace@);
                    assert(old_run == self.done@);
                    lemma_open_run_push(self.trace@, r);
                    self.trace@ = self.trace@.push(r);
                    self.current@ = c;
                    assert(open_run(self.trace@) == old_run.push(b));
                    assert(pulled(old(self).input, self.input) =~= seq![x]);
                    assert(self.trace@ + byte_results(self.pending()) =~= old(self).trace@ + byte_results(e)) by {
                        assert(old(self).pending() =~= Seq::<u8>::empty());
                        assert(e[0] == b);
                    }
                    if n == 1 {
                        vstd::utf8::valid_utf8_concat(self.done@, e);
                        assert(e =~= seq![b]);
                        self.done@ = self.done@ + e;
                        assert(open_run(self.trace@) =~= self.done@ + Seq::<u8>::empty());
                        lemma_empty_char_start();
                        lemma_valid_then_start(self.done@, Seq::<u8>::empty());
                        assert(self.pending() =~= e.drop_first());
                    } else {
                        assert(self.leftover@.subrange(0, 1) =~= seq![b]);
                        assert(open_run(self.trace@) =~= self.done@ + self.leftover@.subrange(0, 1));
                        assert(self.leftover@.subrange(0, 1) =~= e.subrange(0, 1));
                        assert(1 < e.len());
                        assert(char_start(self.leftover@.subrange(0, 1)));
                        lemma_valid_then_start(self.done@, self.leftover@.subrange(0, 1));
                        assert(self.pending() =~= e.drop_first());
                    }
                    assert(old(self).input().step(self.input(), x));
                    assert(old(self).step(*self, r));
                }
                r
            },
        }
    }
}

/// One call of an encoder, from state `a` to state `b`, returning `r`: a
/// pending byte is returned first; otherwise one character is pulled and the
/// first byte of its encoding returned, the others becoming pending.
pub open spec fn encoded_step<S: Stream>(a: CharsToBytes<S>, b: CharsToBytes<S>, r: Option<PipeType>) -> bool {
    &&& b.origin() == a.origin()
    &&& advanced(a.input(), b.input())
    &&& a.pending().len() > 0 ==> {
        &&& r == Some(PipeType::Byte(a.pending()[0]))
        &&& b.pending() == a.pending().drop_first()
        &&& b.input() == a.input()
    }
    &&& a.pending().len() == 0 ==> {
        let p = pulled(a.input(), b.input());
        &&& p.len() == 1
        &&& p[0] is None ==> r is None && b.pending().len() == 0
        &&& p[0] matches Some(x) ==> {
            &&& x matches PipeType::Char(c)
            &&& r == Some(PipeType::Byte(encode_scalar(c as u32)[0]))
            &&& b.pending() == encode_scalar(c as u32).drop_first()
            &&& (c as u32) < 0x80 ==> r == Some(PipeType::Byte(c as u8)) && b.pending().len() == 0
        }
    }
}

/// Over any run of calls of `next` that starts with nothing pending, the
/// bytes `CharsToBytes` returned, followed by those still pending, are the
/// UTF-8 encoding of the characters its input returned over the matching
/// run of the input, with `None` where the input returned `None`.
pub proof fn law_chars_to_bytes_stream<S: Stream>(es: Seq<CharsToBytes<S>>, rs: Seq<Option<PipeType>>) -> (input_run: (
    Seq<S>,
    Seq<Option<PipeType>>,
))
    requires
        run(es, rs),
        es[0].pending().len() == 0,
    ensures
        run(input_run.0, input_run.1),
        input_run.0[0] == es[0].input(),
        input_run.0.last() == es.last().input(),
        encode_results(input_run.1) == rs + byte_results(es.last().pending()),
    decreases rs.len(),
{
    if rs.len() == 0 {
        lemma_run_start(es[0].input());
        assert(byte_results(es.last().pending()) =~= Seq::<Option<PipeType>>::empty());
        assert(rs + byte_results(es.last().pending()) =~= encode_results(Seq::<Option<PipeType>>::empty()));
        (seq![es[0].input()], Seq::empty())
    } else {
        lemma_run_drop_last(es, rs);
        let (is, ys) = law_chars_to_bytes_stream(es.drop_last(), rs.drop_last());
        let a = es[es.len() - 2];
        let b = es.last();
        let r = rs.last();
        assert(rs.drop_last().push(r) =~= rs);
        if a.pending().len() > 0 {
            assert(byte_results(a.pending()) =~= seq![r] + byte_results(b.pending()));
            assert(rs + byte_results(b.pending()) =~= rs.drop_last() + byte_results(a.pending()));
            (is, ys)
        } else {
            let x = choose|x: Option<PipeType>| #[trigger] a.input().step(b.input(), x) && match x {
                Some(PipeType::Char(c)) => r == Some(PipeType::Byte(encode_scalar(c as u32)[0]))
                    && b.pending() == encode_scalar(c as u32).drop_first(),
                None => r is None && b.pending().len() == 0,
                _ => false,
            };
            lemma_run_push(is, ys, b.input(), x);
            lemma_encode_results_push(ys, x);
            assert(byte_results(a.pending()) =~= Seq::<Option<PipeType>>::empty());
            match x {
                Some(PipeType::Char(c)) => {
                    let e = encode_scalar(c as u32);
                    lemma_encode_scalar_first(c);
                    assert(byte_results(e) =~= seq![r] + byte_results(b.pending()));
                },
                _ => {
                    assert(byte_results(b.pending()) =~= Seq::<Option<PipeType>>::empty());
                },
            }
            assert(rs + byte_results(b.pending()) =~= (rs.drop_last() + byte_results(a.pending()))
                + encode_piece(x));
            (is.push(b.input()), ys.push(x))
        }
    }
}

/// `std::str::from_utf8`, which accepts exactly the valid UTF-8 byte
/// sequences and reads them as characters. The contract claims that its
/// notion of validity and its decoding are vstd's `valid_utf8` and `decode_utf8`.
#[verifier::external_body]
fn str_from_utf8(bytes: &[u8]) -> (r: Option<&str>)
    ensures
        r is Some <==> valid_utf8(bytes@),
        r matches Some(s) ==> s@ == decode_utf8(bytes@),
{
    std::str::from_utf8(bytes).ok()
}

/// Reads the UTF-8 encoding of one character at a time from its input and
/// yields the character.
pub struct BytesToChars<S> {
    input: S,
    trace: Ghost<Seq<Option<PipeType>>>,
}

/// The input of a decoder must yield only bytes, promise clean UTF-8, and
/// stand at the end of a whole character.
pub open spec fn decodable<S: Stream>(input: S) -> bool {
    &&& input.wf()
    &&& yields_only(input, PipeTypeHint::Byte)
    &&& input.utf8_clean()
    &&& valid_utf8(open_run(input.emitted()))
}

/// A character a decoder over `input` can return: each byte of its
/// encoding is an item `input` can yield, and, when `input` yields only bytes
/// below `0x80`, it is one of those bytes read as a character.
pub open spec fn decoded_item<S: Stream>(input: S, x: PipeType) -> bool {
    &&& x matches PipeType::Char(c)
    &&& forall|i: int|
        0 <= i < encode_scalar(c as u32).len() ==> (input.yields())(PipeType::Byte(
            #[trigger] encode_scalar(c as u32)[i],
        ))
    &&& ascii_items(input) ==> exists|b: u8| b == c as u32 && #[trigger] (input.yields())(PipeType::Byte(b))
}

impl<S: Stream> BytesToChars<S> {
    /// The stream of bytes being decoded.
    pub closed spec fn input(&self) -> S {
        self.input
    }

    /// A decoder over `input`.
    pub fn uncoerced(input: S) -> (r: Self)
        requires
            decodable(input),
        ensures
            r.wf(),
            r.input() == input,
            r.hint() == PipeTypeHint::Char,
            r.size() == input.size(),
            r.yields() == (|x: PipeType| decoded_item(input, x)),
            yields_only(r, PipeTypeHint::Char),
            honest(r),
            r.finite() == input.finite(),
            r.endless() == input.endless(),
            !r.utf8_clean(),
            r.emitted() == Seq::<Option<PipeType>>::empty(),
    {
        BytesToChars { input, trace: Ghost(Seq::empty()) }
    }
}

impl<S: Stream> Stream for BytesToChars<S> {
    closed spec fn hint(&self) -> PipeTypeHint {
        PipeTypeHint::Char
    }

    closed spec fn size(&self) -> Option<usize> {
        self.input.size()
    }

    closed spec fn yields(&self) -> spec_fn(PipeType) -> bool {
        |x: PipeType| decoded_item(self.input, x)
    }

    closed spec fn emitted(&self) -> Seq<Option<PipeType>> {
        self.trace@
    }

    closed spec fn utf8_clean(&self) -> bool {
        false
    }

    closed spec fn endless(&self) -> bool {
        self.input.endless()
    }

    closed spec fn assured(&self) -> nat {
        if ascii_items(self.input) {
            self.input.assured()
        } else {
            0
        }
    }

    closed spec fn finite(&self) -> bool {
        self.input.finite()
    }

    closed spec fn budget(&self) -> nat {
        self.input.budget()
    }

    closed spec fn wf(&self) -> bool {
        decodable(self.input)
    }

    /// Pulls bytes until they encode one character, which it returns, or
    /// until the input returns `None`.
    open spec fn step(&self, after: Self, r: Option<PipeType>) -> bool {
        exists|ss: Seq<S>, xs: Seq<Option<PipeType>>| {
            &&& #[trigger] run(ss, xs)
            &&& ss[0] == self.input()
            &&& ss.last() == after.input()
            &&& decoded_results(xs, r)
        }
    }

    fn size_hint(&self) -> (r: Option<usize>) {
        self.input.size_hint()
    }

    fn type_hint(&self) -> (r: PipeTypeHint) {
        PipeTypeHint::Char
    }

    /// Pulls bytes until those pulled are the encoding of one character, and
    /// returns it; returns `None` as soon as the input does.
    fn next(&mut self) -> (r: Option<PipeType>)
        ensures
            decoded_step(*old(self), *final(self), r),
    {
        let ghost start = self.input;
        let ghost prior = open_run(self.input.emitted());
        let mut bytes: Vec<u8> = Vec::new();
        let mut i: usize = 0;
        let ghost mut ss: Seq<S> = seq![start];
        let ghost mut xs: Seq<Option<PipeType>> = Seq::empty();
        proof {
            lemma_advanced_refl(start);
            lemma_run_start(start);
            assert(pulled(start, start) =~= xs);
        }
        while i < 4
            invariant
                run(ss, xs),
                ss[0] == start,
                ss.last() == self.input,
                xs == pulled(start, self.input),
                advanced(start, self.input),
                decodable(start),
                start == old(self).input,
                prior == open_run(start.emitted()),
                self.input.emitted().len() >= start.emitted().len(),
                self.trace == old(self).trace,
                self.input.wf(),
                self.input.hint() == start.hint(),
                self.input.size() == start.size(),
                self.input.yields() == start.yields(),
                self.input.finite() == start.finite(),
                self.input.endless() == start.endless(),
                self.input.utf8_clean() == start.utf8_clean(),
                self.input.finite() ==> self.input.budget() + i <= start.budget(),
                i <= 4,
                bytes@.len() == i,
                pulled(start, self.input).len() == i,
                self.input.emitted().subrange(0, start.emitted().len() as int) == start.emitted(),
                all_bytes(pulled(start, self.input)),
                byte_values(pulled(start, self.input)) == bytes@,
                open_run(self.input.emitted()) == prior + bytes@,
                forall|j: int| 1 <= j <= i ==> !valid_utf8(#[trigger] bytes@.subrange(0, j)),
                i > 0 ==> utf8_prefix(open_run(self.input.emitted())),
            decreases 4 - i,
        {
            let ghost before = self.input;
            let x = self.input.next();
            proof {
                lemma_open_run_push(before.emitted(), x);
                lemma_pulled_push(start, before, self.input, x);
                lemma_advanced_step(start, before, self.input, x);
                lemma_run_push(ss, xs, self.input, x);
                ss = ss.push(self.input);
                xs = xs.push(x);
            }
            match x {
                None => {
                    let r = None;
                    proof {
                        self.trace@ = self.trace@.push(r);
                        let p = pulled(start, self.input);
                        assert(p.drop_last() =~= pulled(start, before));
                        if i > 0 && bytes@[0] < 0x80 {
                            lemma_ascii_byte(bytes@[0]);
                            assert(bytes@.subrange(0, 1) =~= seq![bytes@[0]]);
                            assert(false);
                        }
                        if i > 0 {
                            assert(p[0] == Some(PipeType::Byte(bytes@[0])));
                        }
                        assert forall|j: int| 1 <= j < p.len() implies !valid_utf8(
                            #[trigger] byte_values(p).subrange(0, j),
                        ) by {
                            assert(byte_values(p).subrange(0, j) =~= bytes@.subrange(0, j));
                        }
                    }
                    return r;
                },
                Some(item) => {
                    let b = item.byte();
                    let ghost prev = bytes@;
                    bytes.push(b);
                    i = i + 1;
                    proof {
                        assert(byte_values(pulled(start, self.input)) =~= bytes@);
                        assert(prior + bytes@ =~= (prior + prev).push(b));
                    }
                    match str_from_utf8(bytes.as_slice()) {
                        Some(s) => {
                            proof {
                                let bs = bytes@;
                                assert(bs.subrange(0, i as int) =~= bs);
                                assert(valid_first_scalar(bs));
                                let len = length_of_first_scalar(bs);
                                if len < bs.len() {
                                    lemma_first_scalar_valid(bs);
                                    assert(bs.subrange(0, len) =~= prev.subrange(0, len));
                                    assert(false);
                                }
                                assert(valid_utf8(bs));
                                vstd::utf8::decode_utf8_first_scalar(bs);
                                assert(vstd::utf8::take_first_scalar(bs) =~= bs);
                                assert(decode_utf8(bs)[0] == (vstd::utf8::decode_first_scalar(bs) as char));
                            }
                            let c = s.get_char(0);
                            let r = Some(PipeType::Char(c));
                            proof {
                                self.trace@ = self.trace@.push(r);
                                vstd::utf8::valid_utf8_concat(prior, bytes@);
                                lemma_encode_scalar_first(c);
                                if bytes@[0] < 0x80 && i > 1 {
                                    lemma_ascii_byte(bytes@[0]);
                                    assert(bytes@.subrange(0, 1) =~= seq![bytes@[0]]);
                                    assert(prev.subrange(0, 1) =~= seq![bytes@[0]]);
                                    assert(false);
                                }
                                let p = pulled(start, self.input);
                                assert(p[0] == Some(PipeType::Byte(bytes@[0])));
                                let e = encode_scalar(c as u32);
                                assert forall|k: int| 0 <= k < e.len() implies (start.yields())(PipeType::Byte(
                                    #[trigger] e[k],
                                )) by {
                                    assert(p[k] matches Some(PipeType::Byte(_)));
                                    assert(byte_values(p)[k] == e[k]);
                                    assert(p[k] == Some(PipeType::Byte(e[k])));
                                }
                                if ascii_items(start) {
                                    assert((start.yields())(PipeType::Byte(bytes@[0])));
                                    assert(i == 1);
                                    assert(c as u32 == bytes@[0]);
                                }
                                assert(decoded_item(start, PipeType::Char(c)));
                            }
                            return r;
                        },
                        None => {
                            proof {
                                assert forall|j: int| 1 <= j <= i implies !valid_utf8(
                                    #[trigger] bytes@.subrange(0, j),
                                ) by {
                                    if j < i {
                                        assert(bytes@.subrange(0, j) =~= prev.subrange(0, j));
                                    } else {
                                        assert(bytes@.subrange(0, j) =~= bytes@);
                                    }
                                }
                            }
                        },
                    }
                },
            }
        }
        proof {
            let bs = bytes@;
            assert(utf8_prefix(prior + bs));
            lemma_utf8_prefix_skip(prior, bs);
            if valid_first_scalar(bs) {
                lemma_first_scalar_valid(bs);
                let len = length_of_first_scalar(bs);
                assert(1 <= len <= 4);
                assert(!valid_utf8(bs.subrange(0, len)));
                assert(false);
            } else {
                let c = choose|c: char|
                    bs.len() < #[trigger] encode_scalar(c as u32).len() && bs == encode_scalar(
                        c as u32,
                    ).subrange(0, bs.len() as int);
                lemma_encode_scalar_first(c);
                assert(false);
            }
        }
        None
    }
}

/// One call of a decoder, from state `a` to state `b`, returning `r`: its
/// input moved on, and what it pulled and returned are as `decoded_results`
/// says.
pub open spec fn decoded_step<S: Stream>(a: BytesToChars<S>, b: BytesToChars<S>, r: Option<PipeType>) -> bool {
    &&& advanced(a.input(), b.input())
    &&& decoded_results(pulled(a.input(), b.input()), r)
}

/// What a decoder returns, `r`, for the results `p` it pulled: it pulled
/// until they were the encoding of the character returned, or until the
/// input returned `None`, no shorter run of them being valid UTF-8.
pub open spec fn decoded_results(p: Seq<Option<PipeType>>, r: Option<PipeType>) -> bool {
    &&& 1 <= p.len() <= 4
    &&& (p[0] matches Some(PipeType::Byte(x)) && x < 0x80) ==> p.len() == 1 && r is Some
    &&& r is None ==> {
        &&& p.last() is None
        &&& all_bytes(p.drop_last())
        &&& forall|j: int| 1 <= j < p.len() ==> !valid_utf8(#[trigger] byte_values(p).subrange(0, j))
    }
    &&& r matches Some(x) ==> {
        &&& x matches PipeType::Char(c)
        &&& all_bytes(p)
        &&& byte_values(p) == encode_scalar(c as u32)
        &&& p.len() == 1 ==> c as u32 == byte_values(p)[0]
    }
}

/// Within a run of an encoder that began by pulling the character `c`: up to
/// the length of its encoding, each call returned the next byte of the
/// encoding, without pulling, and the rest of the encoding stayed pending.
proof fn lemma_encoder_spells<S: Stream>(ss: Seq<CharsToBytes<S>>, xs: Seq<Option<PipeType>>, c: char, j: int)
    requires
        run(ss, xs),
        1 <= j <= xs.len(),
        j <= encode_scalar(c as u32).len(),
        ss[1].pending() == encode_scalar(c as u32).drop_first(),
        xs[0] == Some(PipeType::Byte(encode_scalar(c as u32)[0])),
    ensures
        ss[j].pending() == encode_scalar(c as u32).subrange(j, encode_scalar(c as u32).len() as int),
        ss[j].input() == ss[1].input(),
        forall|i: int| 0 <= i < j ==> #[trigger] xs[i] == Some(PipeType::Byte(encode_scalar(c as u32)[i])),
    decreases j,
{
    let e = encode_scalar(c as u32);
    if j == 1 {
        assert(e.drop_first() =~= e.subrange(1, e.len() as int));
    } else {
        lemma_encoder_spells(ss, xs, c, j - 1);
        let k = j - 1;
        assert(ss[k].step(ss[k + 1], xs[k]));
        assert(ss[k].pending().len() > 0);
        assert(ss[k].pending()[0] == e[k]);
        assert(ss[j].pending() =~= e.subrange(j, e.len() as int));
    }
}

/// One call of a decoder over an encoder that has nothing pending returns
/// what the encoder's input returned on the one pull made, and leaves the
/// encoder with nothing pending.
pub proof fn law_decode_encoded_step<S: Stream>(
    a: BytesToChars<CharsToBytes<S>>,
    b: BytesToChars<CharsToBytes<S>>,
    r: Option<PipeType>,
)
    requires
        a.step(b, r),
        a.input().pending().len() == 0,
    ensures
        a.input().input().step(b.input().input(), r),
        b.input().pending().len() == 0,
        r matches Some(x) ==> x is Char,
{
    let (ss, xs) = choose|ss: Seq<CharsToBytes<S>>, xs: Seq<Option<PipeType>>| {
        &&& #[trigger] run(ss, xs)
        &&& ss[0] == a.input()
        &&& ss.last() == b.input()
        &&& decoded_results(xs, r)
    };
    let e0 = ss[0];
    assert(e0.step(ss[1], xs[0]));
    let z = choose|z: Option<PipeType>| #[trigger] e0.input().step(ss[1].input(), z) && match z {
        Some(PipeType::Char(c)) => xs[0] == Some(PipeType::Byte(encode_scalar(c as u32)[0]))
            && ss[1].pending() == encode_scalar(c as u32).drop_first(),
        None => xs[0] is None && ss[1].pending().len() == 0,
        _ => false,
    };
    match z {
        None => {
            if xs.len() > 1 {
                if r is None {
                    assert(xs.drop_last()[0] == xs[0]);
                }
                assert(false);
            }
            if r is Some {
                assert(false);
            }
            assert(ss.last() == ss[1]);
        },
        Some(PipeType::Char(c)) => {
            let e = encode_scalar(c as u32);
            law_char_round_trip(c);
            lemma_encode_scalar_first(c);
            let n = xs.len() as int;
            let m = if n < e.len() { n } else { e.len() as int };
            lemma_encoder_spells(ss, xs, c, m);
            match r {
                None => {
                    if n - 1 >= e.len() {
                        assert(byte_values(xs).subrange(0, e.len() as int) =~= e);
                        assert(!valid_utf8(byte_values(xs).subrange(0, e.len() as int)));
                        assert(false);
                    } else {
                        assert(xs[n - 1] == Some(PipeType::Byte(e[n - 1])));
                        assert(false);
                    }
                },
                Some(x) => {
                    let c2 = x->Char_0;
                    let e2 = encode_scalar(c2 as u32);
                    let bv = byte_values(xs);
                    assert(bv == e2);
                    if n <= e.len() {
                        assert(bv =~= e.subrange(0, n));
                        assert(e.subrange(0, e.len() as int) =~= e);
                        law_encodings_prefix_free(c, c2, e);
                    } else {
                        assert(bv.subrange(0, e.len() as int) =~= e);
                        assert(bv.subrange(0, bv.len() as int) =~= bv);
                        law_encodings_prefix_free(c, c2, bv);
                    }
                    assert(c2 == c);
                    assert(n == e.len());
                    assert(ss.last() == ss[n]);
                    assert(e.subrange(n, n) =~= Seq::<u8>::empty());
                },
            }
        },
        _ => {
            assert(false);
        },
    }
}

/// A run of a stream held unchanged by `coerce` is a run of the stream itself.
proof fn lemma_same_run<E: Stream>(ss: Seq<Coerced<E>>, xs: Seq<Option<PipeType>>, j: int)
    requires
        run(ss, xs),
        ss[0] is Same,
        0 <= j < ss.len(),
    ensures
        forall|i: int| 0 <= i <= j ==> #[trigger] ss[i] is Same,
    decreases j,
{
    if j > 0 {
        lemma_same_run(ss, xs, j - 1);
        assert(ss[j - 1].step(ss[j], xs[j - 1]));
    }
}

/// `law_decode_encoded_step` for a decoder and an encoder made by `new`,
/// each holding its input through `coerce`.
pub proof fn law_decode_encoded_step_coerced<S: Stream>(
    a: BytesToChars<Coerced<CharsToBytes<S>>>,
    b: BytesToChars<Coerced<CharsToBytes<S>>>,
    r: Option<PipeType>,
)
    requires
        a.step(b, r),
        a.input() matches Coerced::Same(e) && e.pending().len() == 0,
    ensures
        b.input() matches Coerced::Same(e2) && e2.pending().len() == 0 && a.input()->Same_0.input().step(
            e2.input(),
            r,
        ),
        r matches Some(x) ==> x is Char,
{
    let (ss, xs) = choose|ss: Seq<Coerced<CharsToBytes<S>>>, xs: Seq<Option<PipeType>>| {
        &&& #[trigger] run(ss, xs)
        &&& ss[0] == a.input()
        &&& ss.last() == b.input()
        &&& decoded_results(xs, r)
    };
    lemma_same_run(ss, xs, ss.len() - 1);
    let ts = Seq::new(ss.len(), |j: int| ss[j]->Same_0);
    assert forall|j: int| #![trigger xs[j]] 0 <= j < xs.len() implies ts[j].step(ts[j + 1], xs[j]) by {
        assert(ss[j].step(ss[j + 1], xs[j]));
        assert(ss[j] is Same && ss[j + 1] is Same);
    }
    if xs.len() > 0 {
        assert(ss[0].step(ss[1], xs[0]));
        assert(ss[1] is Same);
    }
    assert(run(ts, xs));
    let a2 = BytesToChars { input: ts[0], trace: a.trace };
    let b2 = BytesToChars { input: ts.last(), trace: b.trace };
    assert(ss.last() is Same);
    assert(a2.step(b2, r));
    law_decode_encoded_step(a2, b2, r);
}

/// Decoding what was encoded gives it back: over any run of calls of `next`
/// of a decoder over an encoder that starts with nothing pending, the
/// decoder returned exactly what the encoder's input returned over the
/// matching run of that input, character for character and `None` for
/// `None`, and the encoder is left with nothing pending.
pub proof fn law_decode_encoded_stream<S: Stream>(
    ds: Seq<BytesToChars<CharsToBytes<S>>>,
    rs: Seq<Option<PipeType>>,
) -> (input_run: (Seq<S>, Seq<Option<PipeType>>))
    requires
        run(ds, rs),
        ds[0].input().pending().len() == 0,
    ensures
        run(input_run.0, input_run.1),
        input_run.0[0] == ds[0].input().input(),
        input_run.0.last() == ds.last().input().input(),
        input_run.1 == rs,
        ds.last().input().pending().len() == 0,
    decreases rs.len(),
{
    if rs.len() == 0 {
        lemma_run_start(ds[0].input().input());
        (seq![ds[0].input().input()], Seq::empty())
    } else {
        lemma_run_drop_last(ds, rs);
        let (is, ys) = law_decode_encoded_stream(ds.drop_last(), rs.drop_last());
        let a = ds[ds.len() - 2];
        let b = ds.last();
        law_decode_encoded_step(a, b, rs.last());
        lemma_run_push(is, ys, b.input().input(), rs.last());
        assert(rs.drop_last().push(rs.last()) =~= rs);
        (is.push(b.input().input()), ys.push(rs.last()))
    }
}

/// A stream as `coerce` hands it back: unchanged, drained, decoded or encoded.
pub enum Coerced<S> {
    Same(S),
    Discard(Discard<S>),
    ToChars(BytesToChars<S>),
    ToBytes(CharsToBytes<S>),
}

impl<S: Stream> Stream for Coerced<S> {
    open spec fn hint(&self) -> PipeTypeHint {
        match self {
            Coerced::Same(s) => s.hint(),
            Coerced::Discard(s) => s.hint(),
            Coerced::ToChars(s) => s.hint(),
            Coerced::ToBytes(s) => s.hint(),
        }
    }

    open spec fn size(&self) -> Option<usize> {
        match self {
            Coerced::Same(s) => s.size(),
            Coerced::Discard(s) => s.size(),
            Coerced::ToChars(s) => s.size(),
            Coerced::ToBytes(s) => s.size(),
        }
    }

    open spec fn yields(&self) -> spec_fn(PipeType) -> bool {
        match self {
            Coerced::Same(s) => s.yields(),
            Coerced::Discard(s) => s.yields(),
            Coerced::ToChars(s) => s.yields(),
            Coerced::ToBytes(s) => s.yields(),
        }
    }

    open spec fn emitted(&self) -> Seq<Option<PipeType>> {
        match self {
            Coerced::Same(s) => s.emitted(),
            Coerced::Discard(s) => s.emitted(),
            Coerced::ToChars(s) => s.emitted(),
            Coerced::ToBytes(s) => s.emitted(),
        }
    }

    open spec fn utf8_clean(&self) -> bool {
        match self {
            Coerced::Same(s) => s.utf8_clean(),
            Coerced::Discard(s) => s.utf8_clean(),
            Coerced::ToChars(s) => s.utf8_clean(),
            Coerced::ToBytes(s) => s.utf8_clean(),
        }
    }

    open spec fn endless(&self) -> bool {
        match self {
            Coerced::Same(s) => s.endless(),
            Coerced::Discard(s) => s.endless(),
            Coerced::ToChars(s) => s.endless(),
            Coerced::ToBytes(s) => s.endless(),
        }
    }

    open spec fn assured(&self) -> nat {
        match self {
            Coerced::Same(s) => s.assured(),
            Coerced::Discard(s) => s.assured(),
            Coerced::ToChars(s) => s.assured(),
            Coerced::ToBytes(s) => s.assured(),
        }
    }

    open spec fn finite(&self) -> bool {
        match self {
            Coerced::Same(s) => s.finite(),
            Coerced::Discard(s) => s.finite(),
            Coerced::ToChars(s) => s.finite(),
            Coerced::ToBytes(s) => s.finite(),
        }
    }

    open spec fn budget(&self) -> nat {
        match self {
            Coerced::Same(s) => s.budget(),
            Coerced::Discard(s) => s.budget(),
            Coerced::ToChars(s) => s.budget(),
            Coerced::ToBytes(s) => s.budget(),
        }
    }

    open spec fn wf(&self) -> bool {
        match self {
            Coerced::Same(s) => s.wf(),
            Coerced::Discard(s) => s.wf(),
            Coerced::ToChars(s) => s.wf(),
            Coerced::ToBytes(s) => s.wf(),
        }
    }

    /// What the stream held does; the variant is kept.
    open spec fn step(&self, after: Self, r: Option<PipeType>) -> bool {
        match *self {
            Coerced::Same(a) => after matches Coerced::Same(b) && a.step(b, r),
            Coerced::Discard(a) => after matches Coerced::Discard(b) && a.step(b, r),
            Coerced::ToChars(a) => after matches Coerced::ToChars(b) && a.step(b, r),
            Coerced::ToBytes(a) => after matches Coerced::ToBytes(b) && a.step(b, r),
        }
    }

    fn size_hint(&self) -> (r: Option<usize>) {
        match self {
            Coerced::Same(s) => s.size_hint(),
            Coerced::Discard(s) => s.size_hint(),
            Coerced::ToChars(s) => s.size_hint(),
            Coerced::ToBytes(s) => s.size_hint(),
        }
    }

    fn type_hint(&self) -> (r: PipeTypeHint) {
        match self {
            Coerced::Same(s) => s.type_hint(),
            Coerced::Discard(s) => s.type_hint(),
            Coerced::ToChars(s) => s.type_hint(),
            Coerced::ToBytes(s) => s.type_hint(),
        }
    }

    /// Pulls from the stream held, whichever it is.
    fn next(&mut self) -> (r: Option<PipeType>)
        ensures
            *old(self) matches Coerced::Same(a) ==> (*final(self) matches Coerced::Same(b) && pulled(a, b)
                == seq![r] && advanced(a, b)),
            *old(self) matches Coerced::Discard(a) ==> (*final(self) matches Coerced::Discard(b) && r is None
                && drained(a, b)),
            *old(self) matches Coerced::ToChars(a) ==> (*final(self) matches Coerced::ToChars(b)
                && decoded_step(a, b, r)),
            *old(self) matches Coerced::ToBytes(a) ==> (*final(self) matches Coerced::ToBytes(b)
                && encoded_step(a, b, r)),
    {
        match self {
            Coerced::Same(s) => {
                let ghost a = *s;
                let r = s.next();
                proof {
                    assert(pulled(a, *s) =~= seq![r]);
                    lemma_advanced_once(a, *s, r);
                }
                r
            },
            Coerced::Discard(s) => s.next(),
            Coerced::ToChars(s) => s.next(),
            Coerced::ToBytes(s) => s.next(),
        }
    }
}

/// The conversions `coerce` knows, on the inputs on which they work: none is
/// needed, draining an input that ends, decoding clean UTF-8 bytes, or
/// encoding characters.
pub open spec fn can_coerce<S: Stream>(input: S, to: PipeTypeHint) -> bool {
    let from = input.hint();
    &&& input.wf()
    &&& {
        ||| from == to
        ||| (to == PipeTypeHint::Nothing && input.finite())
        ||| (from == PipeTypeHint::Byte && to == PipeTypeHint::Char && decodable(input))
        ||| (from == PipeTypeHint::Char && to == PipeTypeHint::Byte && yields_only(
            input,
            PipeTypeHint::Char,
        ))
    }
}

/// `input` can be coerced to a stream that yields only items of kind `to`.
pub open spec fn coercible<S: Stream>(input: S, to: PipeTypeHint) -> bool {
    &&& can_coerce(input, to)
    &&& input.hint() == to ==> yields_only(input, to)
}

/// Turns `input` into a stream that announces `to`: the input itself when it
/// already does, a drain when `to` is `Nothing`, otherwise a UTF-8 decoder
/// (bytes to characters) or encoder (characters to bytes).
pub fn coerce<S: Stream>(input: S, to: PipeTypeHint) -> (r: Coerced<S>)
    requires
        can_coerce(input, to),
    ensures
        r.wf(),
        r.hint() == to,
        honest(input) || input.hint() != to ==> honest(r),
        input.hint() == to ==> r == Coerced::Same(input),
        input.hint() != to ==> {
            &&& yields_only(r, to)
            &&& r.emitted() == Seq::<Option<PipeType>>::empty()
        },
        input.hint() != to && to == PipeTypeHint::Nothing ==> {
            &&& r matches Coerced::Discard(d)
            &&& d.input() == input
            &&& r.size() == Some(0usize)
            &&& r.finite()
            &&& r.utf8_clean()
        },
        input.hint() != to && to != PipeTypeHint::Nothing ==> {
            &&& r.size() == input.size()
            &&& r.finite() == input.finite()
            &&& r.endless() == input.endless()
        },
        input.hint() == PipeTypeHint::Byte && to == PipeTypeHint::Char ==> {
            &&& r matches Coerced::ToChars(d)
            &&& d.input() == input
            &&& d.yields() == (|x: PipeType| decoded_item(input, x))
            &&& ascii_items(input) ==> r.assured() == input.assured()
            &&& r.budget() == input.budget()
        },
        input.hint() == PipeTypeHint::Char && to == PipeTypeHint::Byte ==> {
            &&& r matches Coerced::ToBytes(e)
            &&& e.input() == input
            &&& e.pending() == Seq::<u8>::empty()
            &&& e.yields() == (|x: PipeType| encoded_item(input, x))
            &&& r.assured() == input.assured()
            &&& r.budget() == (if ascii_chars(input) {
                input.budget()
            } else {
                4 * input.budget()
            })
            &&& r.utf8_clean()
        },
{
    let from = input.type_hint();
    if from == to {
        return Coerced::Same(input);
    }
    if to == PipeTypeHint::Nothing {
        return Coerced::Discard(Discard::uncoerced(input));
    }
    match from {
        PipeTypeHint::Byte => Coerced::ToChars(BytesToChars::uncoerced(input)),
        _ => Coerced::ToBytes(CharsToBytes::uncoerced(input)),
    }
}

impl<S: Stream> CharsToBytes<Coerced<S>> {
    /// An encoder over `input`, made to announce characters first.
    pub fn new(input: S) -> (r: Self)
        requires
            coercible(input, PipeTypeHint::Char),
        ensures
            r.wf(),
            r.input().hint() == PipeTypeHint::Char,
            input.hint() == PipeTypeHint::Char ==> r.input() == Coerced::Same(input),
            input.hint() == PipeTypeHint::Byte ==> (r.input() matches Coerced::ToChars(d) && d.input()
                == input),
            r.pending() == Seq::<u8>::empty(),
            r.hint() == PipeTypeHint::Byte,
            yields_only(r, PipeTypeHint::Byte),
            honest(r),
            r.utf8_clean(),
            r.finite() == input.finite(),
            r.emitted() == Seq::<Option<PipeType>>::empty(),
    {
        Self::uncoerced(coerce(input, PipeTypeHint::Char))
    }
}

impl<S: Stream> BytesToChars<Coerced<S>> {
    /// A decoder over `input`, made to announce bytes first.
    pub fn new(input: S) -> (r: Self)
        requires
            coercible(input, PipeTypeHint::Byte),
            input.hint() == PipeTypeHint::Byte ==> decodable(input),
        ensures
            r.wf(),
            r.input().hint() == PipeTypeHint::Byte,
            input.hint() == PipeTypeHint::Byte ==> r.input() == Coerced::Same(input),
            input.hint() == PipeTypeHint::Char ==> (r.input() matches Coerced::ToBytes(e) && e.input()
                == input),
            r.hint() == PipeTypeHint::Char,
            yields_only(r, PipeTypeHint::Char),
            honest(r),
            r.emitted() == Seq::<Option<PipeType>>::empty(),
    {
        Self::uncoerced(coerce(input, PipeTypeHint::Byte))
    }
}


/// Pieces of the encoding are never empty, so the encoding of a record is at
/// least as long as the record.
pub proof fn lemma_encode_results_len(t: Seq<Option<PipeType>>)
    ensures
        encode_results(t).len() >= t.len(),
    decreases t.len(),
{
    if t.len() > 0 {
        lemma_encode_results_len(t.drop_last());
        if let Some(PipeType::Char(c)) = t.last() {
            lemma_encode_scalar_first(c);
        }
    }
}

/// The encoding of two records one after the other is the encoding of each.
pub proof fn lemma_encode_results_concat(a: Seq<Option<PipeType>>, b: Seq<Option<PipeType>>)
    ensures
        encode_results(a + b) == encode_results(a) + encode_results(b),
    decreases b.len(),
{
    if b.len() == 0 {
        assert(a + b =~= a);
        assert(encode_results(a) + encode_results(b) =~= encode_results(a));
    } else {
        lemma_encode_results_concat(a, b.drop_last());
        assert((a + b).drop_last() =~= a + b.drop_last());
        assert((a + b).last() == b.last());
        assert(encode_results(a + b) =~= encode_results(a) + encode_results(b));
    }
}

/// Decoding gives back what was encoded: when an encoder with no byte
/// pending is pulled until what it returned is the UTF-8 encoding of a
/// character `c`, it has pulled exactly `c` from its input, and has no byte
/// pending again.
pub proof fn law_encoded_char_decodes<S: Stream>(e0: CharsToBytes<S>, e1: CharsToBytes<S>, c: char)
    requires
        e0.wf(),
        e1.wf(),
        e1.origin() == e0.origin(),
        e1.input().emitted().len() >= e0.input().emitted().len(),
        e1.input().emitted().subrange(0, e0.input().emitted().len() as int) == e0.input().emitted(),
        e1.emitted().len() >= e0.emitted().len(),
        e1.emitted().subrange(0, e0.emitted().len() as int) == e0.emitted(),
        e0.pending().len() == 0,
        all_bytes(pulled(e0, e1)),
        byte_values(pulled(e0, e1)) == encode_scalar(c as u32),
    ensures
        pulled(e0.input(), e1.input()) == seq![Some(PipeType::Char(c))],
        e1.pending().len() == 0,
{
    let o = e0.origin@;
    let p0 = pulled(o, e0.input);
    let p1 = pulled(o, e1.input);
    let d = pulled(e0.input, e1.input);
    assert(p1 =~= p0 + d);
    let t0 = e0.trace@;
    let t1 = e1.trace@;
    let delta = pulled(e0, e1);
    assert(t1 =~= t0 + delta);
    let ec = encode_scalar(c as u32);
    lemma_encode_scalar_first(c);
    assert(delta =~= byte_results(ec)) by {
        assert forall|i: int| 0 <= i < delta.len() implies delta[i] == byte_results(ec)[i] by {
            assert(delta[i] matches Some(PipeType::Byte(_)));
            assert(byte_values(delta)[i] == ec[i]);
        }
    }
    let q1 = e1.pending();
    assert(byte_results(Seq::<u8>::empty()) =~= Seq::<Option<PipeType>>::empty());
    assert(encode_results(p0) =~= t0);
    lemma_encode_results_concat(p0, d);
    let w = encode_results(d);
    assert(w =~= delta + byte_results(q1)) by {
        assert(encode_results(p1) == t1 + byte_results(q1));
        assert(encode_results(p1) == t0 + w);
        assert(t0 + w =~= t0 + (delta + byte_results(q1)));
        assert(w =~= (t0 + w).subrange(t0.len() as int, (t0 + w).len() as int));
    }
    let sb = ec + q1;
    assert(w =~= byte_results(sb));
    if d.len() == 0 {
        assert(w.len() == 0);
        assert(false);
    }
    let rest = d.drop_first();
    assert(d =~= seq![d[0]] + rest);
    lemma_encode_results_concat(seq![d[0]], rest);
    assert(seq![d[0]].drop_last() =~= Seq::<Option<PipeType>>::empty());
    assert(encode_results(Seq::<Option<PipeType>>::empty()) =~= Seq::<Option<PipeType>>::empty());
    assert(seq![d[0]].last() == d[0]);
    assert(encode_results(seq![d[0]]) =~= encode_piece(d[0]));
    let piece = encode_piece(d[0]);
    assert(w =~= piece + encode_results(rest));
    let c1 = match d[0] {
        Some(PipeType::Char(x)) => x,
        _ => {
            assert(piece[0] is None);
            assert(w[0] == piece[0]);
            assert(false);
            c
        },
    };
    let e1c = encode_scalar(c1 as u32);
    lemma_encode_scalar_first(c1);
    assert(piece == byte_results(e1c));
    assert(sb.subrange(0, e1c.len() as int) =~= e1c) by {
        assert forall|i: int| 0 <= i < e1c.len() implies sb[i] == e1c[i] by {
            assert(w[i] == piece[i]);
            assert(w[i] == byte_results(sb)[i]);
        }
    }
    assert(sb.subrange(0, ec.len() as int) =~= ec);
    law_encodings_prefix_free(c, c1, sb);
    assert(encode_results(rest) =~= byte_results(q1)) by {
        assert(w.subrange(piece.len() as int, w.len() as int) =~= encode_results(rest));
        assert(w.subrange(piece.len() as int, w.len() as int) =~= byte_results(q1));
    }
    if q1.len() > 0 {
        assert(e1.offset < e1.len);
        assert(p1.last() == Some(PipeType::Char(e1.current@)));
        if rest.len() == 0 {
            assert(encode_results(rest).len() == 0);
            assert(false);
        }
        assert(p1.last() == rest.last());
        let cur = e1.current@;
        lemma_encode_scalar_first(cur);
        assert(rest.drop_last().push(rest.last()) =~= rest);
        lemma_encode_results_push(rest.drop_last(), rest.last());
        assert(encode_results(rest).len() >= encode_scalar(cur as u32).len());
        assert(q1.len() < encode_scalar(cur as u32).len());
        assert(false);
    }
    lemma_encode_results_len(rest);
    assert(rest.len() == 0);
    assert(d =~= seq![Some(PipeType::Char(c))]);
}

} // verus!
