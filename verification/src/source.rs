//! Stages that start, end or hand on a stream without changing its items.
use vstd::prelude::*;
use crate::item::{Byte, Char, Num, PipeType, PipeTypeHint};
use crate::stream::{
    Stream, honest, pulled, yields_nothing, open_run, lemma_open_run_constant, advanced,
    lemma_advanced_once, lemma_advanced_step, lemma_advanced_refl, run, lemma_run_start, lemma_run_push,
    lemma_open_run_push,
};
use vstd::utf8::valid_utf8;
use crate::codec::{lemma_ascii_utf8_prefix, lemma_valid_prefix};

verus! {

/// One call of a drain: it pulled its input until the input returned
/// `None`, and everything before that `None` was an item.
pub open spec fn drained<S: Stream>(a: Discard<S>, b: Discard<S>) -> bool {
    let p = pulled(a.input(), b.input());
    &&& advanced(a.input(), b.input())
    &&& p.len() >= 1
    &&& p.last() is None
    &&& forall|i: int| 0 <= i < p.len() - 1 ==> #[trigger] p[i] is Some
}

/// Pulls its input until the input runs dry, and yields nothing.
pub struct Discard<S> {
    input: S,
    trace: Ghost<Seq<Option<PipeType>>>,
}

impl<S: Stream> Discard<S> {
    /// The stream being drained.
    pub closed spec fn input(&self) -> S {
        self.input
    }

    /// A stage that drains `input`; `input` must end, or draining would not.
    pub fn uncoerced(input: S) -> (r: Self)
        requires
            input.wf(),
            input.finite(),
        ensures
            r.wf(),
            r.input() == input,
            r.hint() == PipeTypeHint::Nothing,
            r.size() == Some(0usize),
            yields_nothing(r),
            honest(r),
            r.emitted() == Seq::<Option<PipeType>>::empty(),
            r.finite(),
            r.utf8_clean(),
    {
        Discard { input, trace: Ghost(Seq::empty()) }
    }
}

impl<S: Stream> Stream for Discard<S> {
    closed spec fn hint(&self) -> PipeTypeHint {
        PipeTypeHint::Nothing
    }

    closed spec fn size(&self) -> Option<usize> {
        Some(0)
    }

    closed spec fn yields(&self) -> spec_fn(PipeType) -> bool {
        |x: PipeType| false
    }

    closed spec fn emitted(&self) -> Seq<Option<PipeType>> {
        self.trace@
    }

    closed spec fn utf8_clean(&self) -> bool {
        true
    }

    closed spec fn endless(&self) -> bool {
        false
    }

    closed spec fn assured(&self) -> nat {
        0
    }

    closed spec fn finite(&self) -> bool {
        true
    }

    closed spec fn budget(&self) -> nat {
        0
    }

    closed spec fn wf(&self) -> bool {
        self.input.wf() && self.input.finite()
    }

    /// Pulls until its input returns `None`; returns `None`.
    open spec fn step(&self, after: Self, r: Option<PipeType>) -> bool {
        &&& r is None
        &&& exists|ss: Seq<S>, xs: Seq<Option<PipeType>>| {
            &&& #[trigger] run(ss, xs)
            &&& ss[0] == self.input()
            &&& ss.last() == after.input()
            &&& xs.len() >= 1
            &&& xs.last() is None
            &&& forall|j: int| 0 <= j < xs.len() - 1 ==> #[trigger] xs[j] is Some
        }
    }

    fn size_hint(&self) -> (r: Option<usize>) {
        Some(0)
    }

    fn type_hint(&self) -> (r: PipeTypeHint) {
        PipeTypeHint::Nothing
    }

    /// Pulls the input until it returns `None`, then returns `None`.
    fn next(&mut self) -> (r: Option<PipeType>)
        ensures
            r is None,
            drained(*old(self), *final(self)),
    {
        let ghost start = self.input;
        let ghost mut ss: Seq<S> = seq![start];
        let ghost mut xs: Seq<Option<PipeType>> = Seq::empty();
        proof {
            lemma_advanced_refl(start);
            lemma_run_start(start);
        }
        loop
            invariant_except_break
                forall|i: int|
                    start.emitted().len() <= i < self.input.emitted().len()
                        ==> #[trigger] self.input.emitted()[i] is Some,
                forall|j: int| 0 <= j < xs.len() ==> #[trigger] xs[j] is Some,
            invariant
                run(ss, xs),
                ss[0] == start,
                ss.last() == self.input,
                self.input.wf(),
                self.input.finite(),
                self.trace == old(self).trace,
                self.input.hint() == start.hint(),
                self.input.size() == start.size(),
                self.input.yields() == start.yields(),
                self.input.finite() == start.finite(),
                self.input.endless() == start.endless(),
                self.input.emitted().len() >= start.emitted().len(),
                self.input.emitted().subrange(0, start.emitted().len() as int) == start.emitted(),
                advanced(start, self.input),
            ensures
                self.input.wf(),
                self.input.finite(),
                self.trace == old(self).trace,
                self.input.hint() == start.hint(),
                self.input.size() == start.size(),
                self.input.yields() == start.yields(),
                self.input.emitted().len() > start.emitted().len(),
                self.input.emitted().subrange(0, start.emitted().len() as int) == start.emitted(),
                forall|i: int|
                    start.emitted().len() <= i < self.input.emitted().len() - 1
                        ==> #[trigger] self.input.emitted()[i] is Some,
                self.input.emitted().last() is None,
                advanced(start, self.input),
                xs.len() >= 1,
                xs.last() is None,
                forall|j: int| 0 <= j < xs.len() - 1 ==> #[trigger] xs[j] is Some,
            decreases self.input.budget(),
        {
            let ghost before = self.input;
            let r = self.input.next();
            proof {
                lemma_advanced_step(start, before, self.input, r);
                lemma_run_push(ss, xs, self.input, r);
                let xs0 = xs;
                ss = ss.push(self.input);
                xs = xs.push(r);
                assert forall|j: int| 0 <= j < xs.len() - 1 implies #[trigger] xs[j] is Some by {
                    assert(xs[j] == xs0[j]);
                }
            }
            if r.is_none() {
                break;
            }
        }
        proof {
            self.trace@ = self.trace@.push(None);
            let p = pulled(start, self.input);
            assert forall|i: int| 0 <= i < p.len() - 1 implies #[trigger] p[i] is Some by {
                assert(p[i] == self.input.emitted()[i + start.emitted().len()]);
            }
            assert(run(ss, xs));
        }
        None
    }
}

/// Hands on every item of its input unchanged.
pub struct Pass<S> {
    input: S,
}

impl<S: Stream> Pass<S> {
    /// The stream handed on.
    pub closed spec fn input(&self) -> S {
        self.input
    }

    pub fn new(input: S) -> (r: Self)
        requires
            input.wf(),
        ensures
            r.wf(),
            r.input() == input,
            r.hint() == input.hint(),
            r.size() == input.size(),
            r.yields() == input.yields(),
            r.finite() == input.finite(),
            honest(r) == honest(input),
            r.utf8_clean() == input.utf8_clean(),
            r.endless() == input.endless(),
            r.assured() == input.assured(),
            r.emitted() == input.emitted(),
    {
        let r = Pass { input };
        assert(r.yields() == input.yields() && r.hint() == input.hint());
        r
    }
}

impl<S: Stream> Stream for Pass<S> {
    closed spec fn hint(&self) -> PipeTypeHint {
        self.input.hint()
    }

    closed spec fn size(&self) -> Option<usize> {
        self.input.size()
    }

    closed spec fn yields(&self) -> spec_fn(PipeType) -> bool {
        self.input.yields()
    }

    closed spec fn emitted(&self) -> Seq<Option<PipeType>> {
        self.input.emitted()
    }

    closed spec fn utf8_clean(&self) -> bool {
        self.input.utf8_clean()
    }

    closed spec fn endless(&self) -> bool {
        self.input.endless()
    }

    closed spec fn assured(&self) -> nat {
        self.input.assured()
    }

    closed spec fn finite(&self) -> bool {
        self.input.finite()
    }

    closed spec fn budget(&self) -> nat {
        self.input.budget()
    }

    closed spec fn wf(&self) -> bool {
        self.input.wf()
    }

    /// What its input does.
    open spec fn step(&self, after: Self, r: Option<PipeType>) -> bool {
        self.input().step(after.input(), r)
    }

    fn size_hint(&self) -> (r: Option<usize>) {
        self.input.size_hint()
    }

    fn type_hint(&self) -> (r: PipeTypeHint) {
        self.input.type_hint()
    }

    /// Returns what the input returns.
    fn next(&mut self) -> (r: Option<PipeType>)
        ensures
            pulled(old(self).input(), final(self).input()) == seq![r],
            advanced(old(self).input(), final(self).input()),
    {
        let r = self.input.next();
        proof {
            assert(pulled(old(self).input(), self.input) =~= seq![r]);
            lemma_advanced_once(old(self).input, self.input, r);
        }
        r
    }
}

/// Yields the bytes it holds, in order, then `None` on every later pull.
pub struct FromBytes {
    data: Vec<u8>,
    pos: usize,
    trace: Ghost<Seq<Option<PipeType>>>,
}

impl FromBytes {
    /// The bytes held.
    pub closed spec fn data(&self) -> Seq<u8> {
        self.data@
    }

    /// How many of them have been handed out.
    pub closed spec fn position(&self) -> nat {
        self.pos as nat
    }

    pub fn new(data: Vec<u8>) -> (r: Self)
        ensures
            r.wf(),
            r.data() == data@,
            r.position() == 0,
            r.hint() == PipeTypeHint::Byte,
            r.size() == Some(data@.len() as usize),
            r.yields() == (|x: PipeType| x matches PipeType::Byte(b) && data@.contains(b)),
            honest(r),
            r.utf8_clean() == valid_utf8(data@),
            r.finite(),
            r.budget() == data@.len(),
            r.assured() == data@.len(),
            !r.endless(),
            r.emitted() == Seq::<Option<PipeType>>::empty(),
    {
        let r = FromBytes { data, pos: 0, trace: Ghost(Seq::empty()) };
        assert(r.data@.subrange(0, 0) =~= open_run(Seq::<Option<PipeType>>::empty()));
        r
    }
}

impl Stream for FromBytes {
    closed spec fn hint(&self) -> PipeTypeHint {
        PipeTypeHint::Byte
    }

    closed spec fn size(&self) -> Option<usize> {
        Some(self.data@.len() as usize)
    }

    closed spec fn yields(&self) -> spec_fn(PipeType) -> bool {
        |x: PipeType| x matches PipeType::Byte(b) && self.data@.contains(b)
    }

    closed spec fn emitted(&self) -> Seq<Option<PipeType>> {
        self.trace@
    }

    closed spec fn utf8_clean(&self) -> bool {
        valid_utf8(self.data@)
    }

    closed spec fn endless(&self) -> bool {
        false
    }

    closed spec fn assured(&self) -> nat {
        (self.data@.len() - self.pos) as nat
    }

    closed spec fn finite(&self) -> bool {
        true
    }

    closed spec fn budget(&self) -> nat {
        (self.data@.len() - self.pos) as nat
    }

    closed spec fn wf(&self) -> bool {
        &&& self.pos <= self.data@.len()
        &&& self.trace@.len() >= self.pos
        &&& self.trace@.len() > self.pos ==> self.pos == self.data@.len()
        &&& open_run(self.trace@) == if self.trace@.len() == self.pos {
            self.data@.subrange(0, self.pos as int)
        } else {
            Seq::empty()
        }
    }

    /// The next byte held, or `None` once all have been handed out.
    open spec fn step(&self, after: Self, r: Option<PipeType>) -> bool {
        &&& after.data() == self.data()
        &&& if self.position() < self.data().len() {
            r == Some(PipeType::Byte(self.data()[self.position() as int])) && after.position()
                == self.position() + 1
        } else {
            r is None && after.position() == self.position()
        }
    }

    /// How many bytes it held at the start.
    fn size_hint(&self) -> (r: Option<usize>) {
        Some(self.data.len())
    }

    fn type_hint(&self) -> (r: PipeTypeHint) {
        PipeTypeHint::Byte
    }

    fn next(&mut self) -> (r: Option<PipeType>) {
        let r = if self.pos < self.data.len() {
            let b = self.data[self.pos];
            self.pos = self.pos + 1;
            Some(PipeType::Byte(b))
        } else {
            None
        };
        proof {
            lemma_open_run_push(self.trace@, r);
            if r is Some {
                assert(self.data@.subrange(0, self.pos as int) =~= old(self).data@.subrange(
                    0,
                    old(self).pos as int,
                ).push(self.data@[old(self).pos as int]));
            }
            self.trace@ = self.trace@.push(r);
            if valid_utf8(self.data@) {
                if self.trace@.len() == self.pos {
                    lemma_valid_prefix(self.data@, self.pos as int);
                }
            }
        }
        r
    }
}

/// Yields the same byte forever.
pub struct GenerateByte {
    target: Byte,
    trace: Ghost<Seq<Option<PipeType>>>,
}

impl GenerateByte {
    /// The byte yielded.
    pub closed spec fn target(&self) -> Byte {
        self.target
    }

    pub fn new(target: Byte) -> (r: Self)
        ensures
            r.wf(),
            r.target() == target,
            r.hint() == PipeTypeHint::Byte,
            r.size() is None,
            r.yields() == (|x: PipeType| x == PipeType::Byte(target)),
            honest(r),
            r.utf8_clean() == (target < 0x80),
            !r.finite(),
            r.endless(),
            r.emitted() == Seq::<Option<PipeType>>::empty(),
    {
        GenerateByte { target, trace: Ghost(Seq::empty()) }
    }
}

impl Stream for GenerateByte {
    closed spec fn hint(&self) -> PipeTypeHint {
        PipeTypeHint::Byte
    }

    closed spec fn size(&self) -> Option<usize> {
        None
    }

    closed spec fn yields(&self) -> spec_fn(PipeType) -> bool {
        |x: PipeType| x == PipeType::Byte(self.target)
    }

    closed spec fn emitted(&self) -> Seq<Option<PipeType>> {
        self.trace@
    }

    closed spec fn utf8_clean(&self) -> bool {
        self.target < 0x80
    }

    closed spec fn endless(&self) -> bool {
        true
    }

    closed spec fn assured(&self) -> nat {
        0
    }

    closed spec fn finite(&self) -> bool {
        false
    }

    closed spec fn budget(&self) -> nat {
        0
    }

    closed spec fn wf(&self) -> bool {
        forall|i: int|
            0 <= i < self.trace@.len() ==> #[trigger] self.trace@[i] == Some(
                PipeType::Byte(self.target),
            )
    }

    /// Always the target byte.
    open spec fn step(&self, after: Self, r: Option<PipeType>) -> bool {
        r == Some(PipeType::Byte(self.target())) && after.target() == self.target()
    }

    fn size_hint(&self) -> (r: Option<usize>) {
        None
    }

    fn type_hint(&self) -> (r: PipeTypeHint) {
        PipeTypeHint::Byte
    }

    /// Always the target byte.
    fn next(&mut self) -> (r: Option<PipeType>)
        ensures
            r == Some(PipeType::Byte(old(self).target())),
            final(self).target() == old(self).target(),
    {
        let r = Some(PipeType::Byte(self.target));
        proof {
            self.trace@ = self.trace@.push(r);
            if self.target < 0x80 {
                lemma_open_run_constant(self.trace@, self.target);
                lemma_ascii_utf8_prefix(open_run(self.trace@));
            }
        }
        r
    }
}

/// Yields the same character forever.
pub struct GenerateChar {
    target: Char,
    trace: Ghost<Seq<Option<PipeType>>>,
}

impl GenerateChar {
    /// The character yielded.
    pub closed spec fn target(&self) -> Char {
        self.target
    }

    pub fn new(target: Char) -> (r: Self)
        ensures
            r.wf(),
            r.target() == target,
            r.hint() == PipeTypeHint::Char,
            r.size() is None,
            r.yields() == (|x: PipeType| x == PipeType::Char(target)),
            honest(r),
            !r.finite(),
            r.endless(),
            r.emitted() == Seq::<Option<PipeType>>::empty(),
    {
        GenerateChar { target, trace: Ghost(Seq::empty()) }
    }
}

impl Stream for GenerateChar {
    closed spec fn hint(&self) -> PipeTypeHint {
        PipeTypeHint::Char
    }

    closed spec fn size(&self) -> Option<usize> {
        None
    }

    closed spec fn yields(&self) -> spec_fn(PipeType) -> bool {
        |x: PipeType| x == PipeType::Char(self.target)
    }

    closed spec fn emitted(&self) -> Seq<Option<PipeType>> {
        self.trace@
    }

    closed spec fn utf8_clean(&self) -> bool {
        false
    }

    closed spec fn endless(&self) -> bool {
        true
    }

    closed spec fn assured(&self) -> nat {
        0
    }

    closed spec fn finite(&self) -> bool {
        false
    }

    closed spec fn budget(&self) -> nat {
        0
    }

    closed spec fn wf(&self) -> bool {
        true
    }

    /// Always the target character.
    open spec fn step(&self, after: Self, r: Option<PipeType>) -> bool {
        r == Some(PipeType::Char(self.target())) && after.target() == self.target()
    }

    fn size_hint(&self) -> (r: Option<usize>) {
        None
    }

    fn type_hint(&self) -> (r: PipeTypeHint) {
        PipeTypeHint::Char
    }

    /// Always the target character.
    fn next(&mut self) -> (r: Option<PipeType>)
        ensures
            r == Some(PipeType::Char(old(self).target())),
            final(self).target() == old(self).target(),
    {
        let r = Some(PipeType::Char(self.target));
        proof {
            self.trace@ = self.trace@.push(r);
        }
        r
    }
}

/// Yields the same number forever.
pub struct GenerateNum {
    target: Num,
    trace: Ghost<Seq<Option<PipeType>>>,
}

impl GenerateNum {
    /// The number yielded.
    pub closed spec fn target(&self) -> Num {
        self.target
    }

    pub fn new(target: Num) -> (r: Self)
        ensures
            r.wf(),
            r.target() == target,
            r.hint() == PipeTypeHint::Num,
            r.size() is None,
            r.yields() == (|x: PipeType| x == PipeType::Num(target)),
            honest(r),
            !r.finite(),
            r.endless(),
            r.emitted() == Seq::<Option<PipeType>>::empty(),
    {
        GenerateNum { target, trace: Ghost(Seq::empty()) }
    }
}

impl Stream for GenerateNum {
    closed spec fn hint(&self) -> PipeTypeHint {
        PipeTypeHint::Num
    }

    closed spec fn size(&self) -> Option<usize> {
        None
    }

    closed spec fn yields(&self) -> spec_fn(PipeType) -> bool {
        |x: PipeType| x == PipeType::Num(self.target)
    }

    closed spec fn emitted(&self) -> Seq<Option<PipeType>> {
        self.trace@
    }

    closed spec fn utf8_clean(&self) -> bool {
        false
    }

    closed spec fn endless(&self) -> bool {
        true
    }

    closed spec fn assured(&self) -> nat {
        0
    }

    closed spec fn finite(&self) -> bool {
        false
    }

    closed spec fn budget(&self) -> nat {
        0
    }

    closed spec fn wf(&self) -> bool {
        true
    }

    /// Always the target number.
    open spec fn step(&self, after: Self, r: Option<PipeType>) -> bool {
        r == Some(PipeType::Num(self.target())) && after.target() == self.target()
    }

    fn size_hint(&self) -> (r: Option<usize>) {
        None
    }

    fn type_hint(&self) -> (r: PipeTypeHint) {
        PipeTypeHint::Num
    }

    /// Always the target number.
    fn next(&mut self) -> (r: Option<PipeType>)
        ensures
            r == Some(PipeType::Num(old(self).target())),
            final(self).target() == old(self).target(),
    {
        let r = Some(PipeType::Num(self.target));
        proof {
            self.trace@ = self.trace@.push(r);
        }
        r
    }
}

} // verus!
