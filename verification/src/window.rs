//! Stages that drop the first items of their input or stop after a number of them.
use vstd::prelude::*;
use crate::item::{PipeType, PipeTypeHint};
use vstd::utf8::valid_utf8;
use crate::stream::{
    Stream, honest, count_items, pulled, lemma_pulled_push, open_run, lemma_open_run_push,
    lemma_open_run_concat, ascii_items, lemma_open_run_ascii, advanced, run, lemma_run_start,
    lemma_run_push, lemma_run_drop_last, lemma_run_concat, lemma_advanced_once, lemma_advanced_step, lemma_advanced_refl,
};
use crate::codec::{utf8_prefix, lemma_utf8_prefix_skip, lemma_ascii_utf8_prefix};

verus! {

/// Drops the first `num` items of its input, then hands on the rest.
pub struct Skip<S> {
    input: S,
    num: usize,
    curr: usize,
    trace: Ghost<Seq<Option<PipeType>>>,
}

impl<S: Stream> Skip<S> {
    /// The stream items are skipped from.
    pub closed spec fn input(&self) -> S {
        self.input
    }

    /// How many items are to be skipped in all.
    pub closed spec fn num(&self) -> usize {
        self.num
    }

    /// How many items have been skipped so far.
    pub closed spec fn skipped(&self) -> usize {
        self.curr
    }

    pub fn new(input: S, num: usize) -> (r: Self)
        requires
            input.wf(),
        ensures
            r.wf(),
            r.input() == input,
            r.num() == num,
            r.skipped() == 0,
            r.hint() == input.hint(),
            r.size() == (match input.size() {
                Some(n) => Some(if n > num { (n - num) as usize } else { 0usize }),
                None => None,
            }),
            r.yields() == input.yields(),
            honest(r) == honest(input),
            r.finite() == input.finite(),
            r.endless() == input.endless(),
            r.utf8_clean() == ascii_items(input),
            r.emitted() == Seq::<Option<PipeType>>::empty(),
    {
        let r = Skip { input, num, curr: 0, trace: Ghost(Seq::empty()) };
        assert(r.yields() == input.yields() && r.hint() == input.hint());
        r
    }
}

impl<S: Stream> Stream for Skip<S> {
    closed spec fn hint(&self) -> PipeTypeHint {
        self.input.hint()
    }

    closed spec fn size(&self) -> Option<usize> {
        match self.input.size() {
            Some(n) => Some(if n > self.num { (n - self.num) as usize } else { 0usize }),
            None => None,
        }
    }

    closed spec fn yields(&self) -> spec_fn(PipeType) -> bool {
        self.input.yields()
    }

    closed spec fn emitted(&self) -> Seq<Option<PipeType>> {
        self.trace@
    }

    closed spec fn utf8_clean(&self) -> bool {
        ascii_items(self.input)
    }

    closed spec fn endless(&self) -> bool {
        self.input.endless()
    }

    closed spec fn assured(&self) -> nat {
        0
    }

    closed spec fn finite(&self) -> bool {
        self.input.finite()
    }

    closed spec fn budget(&self) -> nat {
        self.input.budget()
    }

    closed spec fn wf(&self) -> bool {
        &&& self.input.wf()
        &&& self.curr <= self.num
        &&& forall|i: int|
            0 <= i < self.trace@.len() ==> (#[trigger] self.trace@[i] matches Some(x) ==> (
            self.input.yields())(x))
    }

    /// Pulls until `num` items have been skipped, ending the call with
    /// `None` if the input returns `None` meanwhile; then pulls once more and
    /// returns what that pull returned.
    open spec fn step(&self, after: Self, r: Option<PipeType>) -> bool {
        let owed = self.num() - self.skipped();
        &&& after.num() == self.num()
        &&& exists|ss: Seq<S>, xs: Seq<Option<PipeType>>| {
            &&& #[trigger] run(ss, xs)
            &&& ss[0] == self.input()
            &&& ss.last() == after.input()
            &&& 1 <= xs.len() <= owed + 1
            &&& forall|i: int| 0 <= i < xs.len() - 1 ==> #[trigger] xs[i] is Some
            &&& r == xs.last()
            &&& xs.len() <= owed ==> r is None
            &&& after.skipped() == (if xs.len() <= owed {
                self.skipped() + xs.len()
            } else {
                self.num() as int
            })
        }
    }

    fn size_hint(&self) -> (r: Option<usize>) {
        match self.input.size_hint() {
            Some(n) => Some(n.saturating_sub(self.num)),
            None => None,
        }
    }

    fn type_hint(&self) -> (r: PipeTypeHint) {
        self.input.type_hint()
    }

    /// Pulls and drops items until `num` have been skipped, giving up with
    /// `None` if the input returns `None` meanwhile; then pulls one more item
    /// and returns it.
    fn next(&mut self) -> (r: Option<PipeType>)
        ensures
            ({
                let p = pulled(old(self).input(), final(self).input());
                let owed = old(self).num() - old(self).skipped();
                &&& 1 <= p.len() <= owed + 1
                &&& forall|i: int| 0 <= i < p.len() - 1 ==> #[trigger] p[i] is Some
                &&& r == p.last()
                &&& p.len() <= owed ==> r is None
                &&& final(self).skipped() == (if p.len() <= owed {
                    old(self).skipped() + p.len()
                } else {
                    old(self).num() as int
                })
                &&& final(self).num() == old(self).num()
            }),
            advanced(old(self).input(), final(self).input()),
    {
        let ghost start = self.input;
        let ghost mut ss: Seq<S> = seq![start];
        let ghost mut xs: Seq<Option<PipeType>> = Seq::empty();
        proof {
            lemma_advanced_refl(start);
            lemma_run_start(start);
            assert(pulled(start, start) =~= xs);
        }
        while self.curr < self.num
            invariant
                run(ss, xs),
                ss[0] == start,
                ss.last() == self.input,
                xs == pulled(start, self.input),
                start == old(self).input,
                self.trace == old(self).trace,
                self.num == old(self).num,
                old(self).curr <= self.curr <= self.num,
                self.input.wf(),
                self.input.hint() == start.hint(),
                self.input.size() == start.size(),
                self.input.yields() == start.yields(),
                self.input.finite() == start.finite(),
                self.input.endless() == start.endless(),
                self.input.utf8_clean() == start.utf8_clean(),
                start.finite() ==> self.input.budget() <= start.budget(),
                self.input.emitted().len() >= start.emitted().len(),
                pulled(start, self.input).len() == self.curr - old(self).curr,
                forall|i: int|
                    0 <= i < pulled(start, self.input).len() ==> #[trigger] pulled(
                        start,
                        self.input,
                    )[i] is Some,
                advanced(start, self.input),
                forall|i: int|
                    0 <= i < self.trace@.len() ==> (#[trigger] self.trace@[i] matches Some(x) ==> (
                    start.yields())(x)),
            decreases self.num - self.curr,
        {
            self.curr = self.curr + 1;
            let ghost before = self.input;
            let x = self.input.next();
            proof {
                lemma_pulled_push(start, before, self.input, x);
                lemma_advanced_step(start, before, self.input, x);
                lemma_run_push(ss, xs, self.input, x);
                ss = ss.push(self.input);
                xs = xs.push(x);
            }
            if x.is_none() {
                proof {
                    self.trace@ = self.trace@.push(None);
                    lemma_skip_trace(*self);
                }
                return None;
            }
        }
        let ghost before = self.input;
        let r = self.input.next();
        proof {
            lemma_pulled_push(start, before, self.input, r);
            lemma_advanced_step(start, before, self.input, r);
            lemma_run_push(ss, xs, self.input, r);
            ss = ss.push(self.input);
            xs = xs.push(r);
            self.trace@ = self.trace@.push(r);
            lemma_skip_trace(*self);
        }
        r
    }
}

/// A record of items of an input that yields only bytes below `0x80` is
/// clean UTF-8.
proof fn lemma_skip_trace<S: Stream>(s: Skip<S>)
    requires
        forall|i: int|
            0 <= i < s.emitted().len() ==> (#[trigger] s.emitted()[i] matches Some(x) ==> (
            s.input().yields())(x)),
    ensures
        ascii_items(s.input()) ==> utf8_prefix(open_run(s.emitted())),
{
    if ascii_items(s.input()) {
        let t = s.emitted();
        assert forall|i: int| 0 <= i < t.len() implies (#[trigger] t[i] matches Some(x) ==> (x matches PipeType::Byte(
            b,
        ) && b < 0x80)) by {
            if let Some(x) = t[i] {
                assert((s.input().yields())(x));
            }
        }
        lemma_open_run_ascii(t);
        lemma_ascii_utf8_prefix(open_run(t));
    }
}

/// Hands on at most the first `num` items its input yields when pulled.
pub struct Take<S> {
    input: S,
    num: usize,
    curr: usize,
    trace: Ghost<Seq<Option<PipeType>>>,
    origin: Ghost<S>,
    start_clean: Ghost<bool>,
}

impl<S: Stream> Take<S> {
    /// The stream items are taken from.
    pub closed spec fn input(&self) -> S {
        self.input
    }

    /// How many pulls are allowed in all.
    pub closed spec fn num(&self) -> usize {
        self.num
    }

    /// How many pulls have been made so far.
    pub closed spec fn taken(&self) -> usize {
        self.curr
    }

    pub fn new(input: S, num: usize) -> (r: Self)
        requires
            input.wf(),
        ensures
            r.wf(),
            r.input() == input,
            r.num() == num,
            r.taken() == 0,
            r.hint() == input.hint(),
            r.size() == (match input.size() {
                Some(n) => Some(if n < num { n } else { num }),
                None => None,
            }),
            r.yields() == input.yields(),
            honest(r) == honest(input),
            r.finite(),
            r.budget() == num,
            !r.endless(),
            r.assured() == (if input.endless() || num <= input.assured() {
                num as nat
            } else {
                input.assured()
            }),
            r.utf8_clean() == (input.utf8_clean() && valid_utf8(open_run(input.emitted()))),
            r.emitted() == Seq::<Option<PipeType>>::empty(),
    {
        let r = Take {
            input,
            num,
            curr: 0,
            trace: Ghost(Seq::empty()),
            origin: Ghost(input),
            start_clean: Ghost(valid_utf8(open_run(input.emitted()))),
        };
        proof {
            assert(pulled(input, input) =~= Seq::<Option<PipeType>>::empty());
            assert(input.emitted().subrange(0, input.emitted().len() as int) =~= input.emitted());
            assert(r.trace@.subrange(0, 0) =~= pulled(input, input));
        }
        r
    }
}

impl<S: Stream> Stream for Take<S> {
    closed spec fn hint(&self) -> PipeTypeHint {
        self.input.hint()
    }

    closed spec fn size(&self) -> Option<usize> {
        match self.input.size() {
            Some(n) => Some(if n < self.num { n } else { self.num }),
            None => None,
        }
    }

    closed spec fn yields(&self) -> spec_fn(PipeType) -> bool {
        self.input.yields()
    }

    closed spec fn emitted(&self) -> Seq<Option<PipeType>> {
        self.trace@
    }

    closed spec fn utf8_clean(&self) -> bool {
        self.input.utf8_clean() && self.start_clean@
    }

    closed spec fn endless(&self) -> bool {
        false
    }

    closed spec fn assured(&self) -> nat {
        if self.curr >= self.num {
            0
        } else if self.input.endless() {
            (self.num - self.curr) as nat
        } else if self.input.assured() < self.num - self.curr {
            self.input.assured()
        } else {
            (self.num - self.curr) as nat
        }
    }

    closed spec fn finite(&self) -> bool {
        true
    }

    closed spec fn budget(&self) -> nat {
        (self.num - self.curr) as nat
    }

    closed spec fn wf(&self) -> bool {
        let p = pulled(self.origin@, self.input);
        &&& self.input.wf()
        &&& self.curr <= self.num
        &&& count_items(self.trace@) <= self.curr
        &&& self.input.emitted().len() >= self.origin@.emitted().len()
        &&& self.input.emitted().subrange(0, self.origin@.emitted().len() as int) == self.origin@.emitted()
        &&& self.start_clean@ == valid_utf8(open_run(self.origin@.emitted()))
        &&& self.trace@.len() >= p.len()
        &&& self.trace@.subrange(0, p.len() as int) == p
        &&& forall|i: int| p.len() <= i < self.trace@.len() ==> #[trigger] self.trace@[i] is None
        &&& self.trace@.len() > p.len() ==> self.curr >= self.num
        &&& p.len() > 0 && self.input.utf8_clean() ==> utf8_prefix(open_run(self.input.emitted()))
    }

    /// Once `num` pulls have been made, `None`; otherwise what one pull of
    /// its input returns.
    open spec fn step(&self, after: Self, r: Option<PipeType>) -> bool {
        &&& after.num() == self.num()
        &&& if self.taken() < self.num() {
            self.input().step(after.input(), r) && after.taken() == self.taken() + 1
        } else {
            r is None && after.input() == self.input() && after.taken() == self.taken()
        }
    }

    fn size_hint(&self) -> (r: Option<usize>) {
        match self.input.size_hint() {
            Some(n) => Some(n.min(self.num)),
            None => None,
        }
    }

    fn type_hint(&self) -> (r: PipeTypeHint) {
        self.input.type_hint()
    }

    /// Returns `None` once `num` pulls have been made; otherwise pulls one
    /// item and returns it.
    fn next(&mut self) -> (r: Option<PipeType>)
        ensures
            old(self).taken() >= old(self).num() ==> {
                &&& r is None
                &&& final(self).input() == old(self).input()
                &&& final(self).taken() == old(self).taken()
            },
            old(self).taken() < old(self).num() ==> {
                &&& pulled(old(self).input(), final(self).input()) == seq![r]
                &&& final(self).taken() == old(self).taken() + 1
            },
            final(self).num() == old(self).num(),
            advanced(old(self).input(), final(self).input()),
    {
        if self.curr >= self.num {
            proof {
                let p = pulled(self.origin@, self.input);
                assert(self.trace@.push(None).drop_last() =~= self.trace@);
                assert(self.trace@.push(None).subrange(0, p.len() as int) =~= self.trace@.subrange(0, p.len() as int));
                lemma_open_run_push(self.trace@, None);
                self.trace@ = self.trace@.push(None);
                lemma_advanced_refl(self.input);
            }
            return None;
        }
        self.curr = self.curr + 1;
        let ghost before = self.input;
        let r = self.input.next();
        proof {
            let p0 = pulled(self.origin@, before);
            assert(self.trace@ =~= p0);
            lemma_pulled_push(self.origin@, before, self.input, r);
            assert(pulled(before, self.input) =~= seq![r]);
            lemma_advanced_once(before, self.input, r);
            assert(self.trace@.push(r).drop_last() =~= self.trace@);
            assert(self.input.emitted().subrange(0, self.origin@.emitted().len() as int) =~= before.emitted().subrange(0, self.origin@.emitted().len() as int));
            self.trace@ = self.trace@.push(r);
            let p = pulled(self.origin@, self.input);
            assert(self.trace@ =~= p);
            assert(self.trace@.subrange(0, p.len() as int) =~= p);
            if self.input.utf8_clean() && self.start_clean@ {
                assert(self.input.emitted() =~= self.origin@.emitted() + p);
                lemma_open_run_concat(self.origin@.emitted(), p);
                if open_run(self.input.emitted()) != open_run(p) {
                    lemma_utf8_prefix_skip(open_run(self.origin@.emitted()), open_run(p));
                }
            }
        }
        r
    }
}

/// Over any run of calls of `next`, `Take` returned exactly what its input
/// returned over the matching run of the input, for as many calls as pulls
/// were left to make, and `None` on every call after those.
pub proof fn law_take_stream<S: Stream>(ts: Seq<Take<S>>, rs: Seq<Option<PipeType>>) -> (input_run: (
    Seq<S>,
    Seq<Option<PipeType>>,
))
    requires
        run(ts, rs),
        ts[0].taken() <= ts[0].num(),
    ensures
        run(input_run.0, input_run.1),
        input_run.0[0] == ts[0].input(),
        input_run.0.last() == ts.last().input(),
        input_run.1.len() == (if rs.len() < ts[0].num() - ts[0].taken() {
            rs.len() as int
        } else {
            ts[0].num() - ts[0].taken()
        }),
        rs.subrange(0, input_run.1.len() as int) == input_run.1,
        forall|i: int| input_run.1.len() <= i < rs.len() ==> #[trigger] rs[i] is None,
        ts.last().taken() == ts[0].taken() + input_run.1.len(),
        ts.last().num() == ts[0].num(),
    decreases rs.len(),
{
    if rs.len() == 0 {
        lemma_run_start(ts[0].input());
        assert(rs.subrange(0, 0) =~= Seq::<Option<PipeType>>::empty());
        (seq![ts[0].input()], Seq::empty())
    } else {
        lemma_run_drop_last(ts, rs);
        let (is, ys) = law_take_stream(ts.drop_last(), rs.drop_last());
        let a = ts[ts.len() - 2];
        let b = ts.last();
        let r = rs.last();
        assert(rs.drop_last().push(r) =~= rs);
        assert forall|i: int| 0 <= i < rs.len() - 1 implies rs[i] == rs.drop_last()[i] by {}
        if a.taken() < a.num() {
            lemma_run_push(is, ys, b.input(), r);
            assert(rs.subrange(0, ys.len() as int + 1) =~= ys.push(r)) by {
                assert(rs.drop_last().subrange(0, ys.len() as int) == ys);
            }
            (is.push(b.input()), ys.push(r))
        } else {
            assert(rs.subrange(0, ys.len() as int) =~= rs.drop_last().subrange(0, ys.len() as int));
            (is, ys)
        }
    }
}

/// Over any run of calls of `next` during which its input returned only
/// items, `Skip` returned the input's items after the first ones it had
/// still to skip: what it returned is the end of what the input returned,
/// which is longer by exactly that many items (once anything was returned).
pub proof fn law_skip_stream<S: Stream>(ts: Seq<Skip<S>>, rs: Seq<Option<PipeType>>) -> (input_run: (
    Seq<S>,
    Seq<Option<PipeType>>,
))
    requires
        run(ts, rs),
        ts[0].skipped() <= ts[0].num(),
    ensures
        run(input_run.0, input_run.1),
        input_run.0[0] == ts[0].input(),
        input_run.0.last() == ts.last().input(),
        ts.last().num() == ts[0].num(),
        (forall|i: int| 0 <= i < input_run.1.len() ==> #[trigger] input_run.1[i] is Some) ==> {
            &&& input_run.1.len() == (if rs.len() == 0 {
                0
            } else {
                ts[0].num() - ts[0].skipped() + rs.len()
            })
            &&& rs == input_run.1.subrange(input_run.1.len() - rs.len(), input_run.1.len() as int)
            &&& rs.len() > 0 ==> ts.last().skipped() == ts.last().num()
            &&& rs.len() == 0 ==> ts.last() == ts[0]
        },
    decreases rs.len(),
{
    if rs.len() == 0 {
        lemma_run_start(ts[0].input());
        assert(rs =~= Seq::<Option<PipeType>>::empty().subrange(0, 0));
        (seq![ts[0].input()], Seq::empty())
    } else {
        lemma_run_drop_last(ts, rs);
        let (is, ys) = law_skip_stream(ts.drop_last(), rs.drop_last());
        let a = ts[ts.len() - 2];
        let b = ts.last();
        let r = rs.last();
        let owed = a.num() - a.skipped();
        let (ss, xs) = choose|ss: Seq<S>, xs: Seq<Option<PipeType>>| {
            &&& #[trigger] run(ss, xs)
            &&& ss[0] == a.input()
            &&& ss.last() == b.input()
            &&& 1 <= xs.len() <= owed + 1
            &&& forall|i: int| 0 <= i < xs.len() - 1 ==> #[trigger] xs[i] is Some
            &&& r == xs.last()
            &&& xs.len() <= owed ==> r is None
            &&& b.skipped() == (if xs.len() <= owed {
                a.skipped() + xs.len()
            } else {
                a.num() as int
            })
        };
        lemma_run_concat(is, ys, ss, xs);
        let all = ys + xs;
        if forall|i: int| 0 <= i < all.len() ==> #[trigger] all[i] is Some {
            assert forall|i: int| 0 <= i < ys.len() implies #[trigger] ys[i] is Some by {
                assert(all[i] == ys[i]);
            }
            assert(all[all.len() - 1] == xs.last());
            assert(r is Some);
            assert(xs.len() == owed + 1);
            assert(rs.drop_last().push(r) =~= rs);
            if rs.len() == 1 {
                assert(ys.len() == 0);
                assert(a == ts[0]);
                assert(all =~= xs);
                assert(rs =~= all.subrange(all.len() - 1, all.len() as int));
            } else {
                assert(a.skipped() == a.num());
                assert(xs.len() == 1);
                assert(rs =~= all.subrange(all.len() - rs.len(), all.len() as int)) by {
                    assert(rs.drop_last() == ys.subrange(ys.len() - rs.drop_last().len(), ys.len() as int));
                }
            }
        }
        (is + ss.drop_first(), all)
    }
}

/// Take hands on at most `num` items in all: whatever is pulled from it,
/// the items among its results number no more than `num`.
pub proof fn law_take_at_most<S: Stream>(t: Take<S>)
    requires
        t.wf(),
    ensures
        count_items(t.emitted()) <= t.num(),
{
}

} // verus!
