//! The pull-stream interface every stage of a pipeline provides.
use vstd::prelude::*;
use crate::item::{PipeType, PipeTypeHint};
use crate::codec::utf8_prefix;

verus! {

/// A source of items, pulled one at a time.
///
/// Besides the executable methods, a stream exposes a model:
/// - `hint`: the kind it announces through `type_hint`;
/// - `size`: what it reports through `size_hint`;
/// - `yields`: every item it can ever return (its typing);
/// - `emitted`: the record of what `next` has returned, each call appending its result;
/// - `finite` and `budget`: when `finite` holds, `budget` never grows and each
///   item returned lowers it, so the stream ends after at most `budget` more items;
/// - `wf`: the stream's own invariant, which `next` keeps.
///
/// - `utf8_clean`: a promise on the bytes it returns (see `utf8_prefix`);
/// - `endless`: it never returns `None`; `assured`: how many of the next
///   calls are sure to return an item.
///
/// `hint`, `size`, `yields`, `finite`, `endless` and `utf8_clean` never change.
pub trait Stream: Sized {
    spec fn hint(&self) -> PipeTypeHint;

    spec fn size(&self) -> Option<usize>;

    spec fn yields(&self) -> spec_fn(PipeType) -> bool;

    spec fn emitted(&self) -> Seq<Option<PipeType>>;

    spec fn finite(&self) -> bool;

    /// The stream never returns `None`.
    spec fn endless(&self) -> bool;

    /// How many of the next calls are sure to return an item.
    spec fn assured(&self) -> nat;

    spec fn budget(&self) -> nat;

    spec fn wf(&self) -> bool;

    /// The stream promises that the bytes it returns since its last `None`
    /// always form valid UTF-8 followed by the beginning of one more character.
    spec fn utf8_clean(&self) -> bool;

    /// `after` is a state this stream can be in after one call of `next`
    /// that returned `r`: each stage states here exactly what that call
    /// does, in terms of the same relation of the stage it pulls from.
    spec fn step(&self, after: Self, r: Option<PipeType>) -> bool;

    /// A hint on how many items remain.
    fn size_hint(&self) -> (r: Option<usize>)
        requires
            self.wf(),
        ensures
            r == self.size(),
    ;

    /// The kind of item this stream announces.
    fn type_hint(&self) -> (r: PipeTypeHint)
        requires
            self.wf(),
        ensures
            r == self.hint(),
    ;

    /// Pulls the next item, or `None` when there is none now.
    fn next(&mut self) -> (r: Option<PipeType>)
        requires
            old(self).wf(),
        ensures
            final(self).wf(),
            final(self).hint() == old(self).hint(),
            final(self).size() == old(self).size(),
            final(self).yields() == old(self).yields(),
            final(self).finite() == old(self).finite(),
            final(self).endless() == old(self).endless(),
            final(self).utf8_clean() == old(self).utf8_clean(),
            final(self).emitted() == old(self).emitted().push(r),
            old(self).step(*final(self), r),
            final(self).utf8_clean() ==> utf8_prefix(open_run(final(self).emitted())),
            r matches Some(x) ==> (old(self).yields())(x),
            old(self).endless() ==> r is Some,
            old(self).assured() > 0 ==> r is Some,
            final(self).assured() + 1 >= old(self).assured(),
            old(self).finite() ==> final(self).budget() <= old(self).budget(),
            old(self).finite() && r is Some ==> final(self).budget() < old(self).budget(),
    ;
}

/// `ss` is a run of states of a stream, each reached from the one before it
/// by one call of `next` that returned the matching result of `xs`.
pub open spec fn run<S: Stream>(ss: Seq<S>, xs: Seq<Option<PipeType>>) -> bool {
    &&& ss.len() == xs.len() + 1
    &&& xs.len() > 0 ==> ss[0].step(ss[1], xs[0])
    &&& forall|j: int| #![trigger xs[j]] 0 <= j < xs.len() ==> ss[j].step(ss[j + 1], xs[j])
}

/// A run of no call.
pub proof fn lemma_run_start<S: Stream>(s: S)
    ensures
        run(seq![s], Seq::<Option<PipeType>>::empty()),
        seq![s][0] == s,
        seq![s].last() == s,
{
}

/// A run grows by one more call.
pub proof fn lemma_run_push<S: Stream>(ss: Seq<S>, xs: Seq<Option<PipeType>>, b: S, x: Option<PipeType>)
    requires
        run(ss, xs),
        ss.last().step(b, x),
    ensures
        run(ss.push(b), xs.push(x)),
        ss.push(b)[0] == ss[0],
        ss.push(b).last() == b,
        xs.push(x).last() == x,
        xs.push(x).drop_last() == xs,
{
    let ts = ss.push(b);
    let ys = xs.push(x);
    assert forall|j: int| #![trigger ys[j]] 0 <= j < ys.len() implies ts[j].step(ts[j + 1], ys[j]) by {
        if j < xs.len() {
            assert(ys[j] == xs[j]);
            assert(ts[j] == ss[j] && ts[j + 1] == ss[j + 1]);
        } else {
            assert(ts[j] == ss.last());
        }
    }
    assert(ys.drop_last() =~= xs);
}

/// A run without its last call is a run, and that call is a step.
pub proof fn lemma_run_drop_last<S: Stream>(ss: Seq<S>, xs: Seq<Option<PipeType>>)
    requires
        run(ss, xs),
        xs.len() > 0,
    ensures
        run(ss.drop_last(), xs.drop_last()),
        ss.drop_last()[0] == ss[0],
        ss.drop_last().last() == ss[ss.len() - 2],
        ss[ss.len() - 2].step(ss.last(), xs.last()),
{
    let ts = ss.drop_last();
    let ys = xs.drop_last();
    assert(xs[xs.len() - 1] == xs.last());
    assert forall|j: int| #![trigger ys[j]] 0 <= j < ys.len() implies ts[j].step(ts[j + 1], ys[j]) by {
        assert(ys[j] == xs[j]);
    }
}

/// A run followed by a run from where the first ended is a run.
pub proof fn lemma_run_concat<S: Stream>(ss: Seq<S>, xs: Seq<Option<PipeType>>, ts: Seq<S>, ys: Seq<Option<PipeType>>)
    requires
        run(ss, xs),
        run(ts, ys),
        ts[0] == ss.last(),
    ensures
        run(ss + ts.drop_first(), xs + ys),
        (ss + ts.drop_first())[0] == ss[0],
        (ss + ts.drop_first()).last() == ts.last(),
    decreases ys.len(),
{
    if ys.len() == 0 {
        assert(ss + ts.drop_first() =~= ss);
        assert(xs + ys =~= xs);
    } else {
        lemma_run_drop_last(ts, ys);
        lemma_run_concat(ss, xs, ts.drop_last(), ys.drop_last());
        let us = ss + ts.drop_last().drop_first();
        lemma_run_push(us, xs + ys.drop_last(), ts.last(), ys.last());
        assert(us.push(ts.last()) =~= ss + ts.drop_first());
        assert((xs + ys.drop_last()).push(ys.last()) =~= xs + ys);
    }
}

/// The parts of a stream's model that `next` leaves as they are.
pub open spec fn same_shape<S: Stream>(a: S, b: S) -> bool {
    &&& a.hint() == b.hint()
    &&& a.size() == b.size()
    &&& a.yields() == b.yields()
    &&& a.finite() == b.finite()
    &&& a.endless() == b.endless()
    &&& a.utf8_clean() == b.utf8_clean()
}

/// The bytes of the record `t` returned after its last `None` (or after its
/// last item that is not a byte).
pub open spec fn open_run(t: Seq<Option<PipeType>>) -> Seq<u8>
    decreases t.len(),
{
    if t.len() == 0 {
        Seq::empty()
    } else {
        match t.last() {
            Some(PipeType::Byte(b)) => open_run(t.drop_last()).push(b),
            _ => Seq::empty(),
        }
    }
}

/// Every item `s` can yield is of kind `h`.
pub open spec fn yields_only<S: Stream>(s: S, h: PipeTypeHint) -> bool {
    forall|x: PipeType| #[trigger] (s.yields())(x) ==> h.spec_matches_hint(x)
}

/// `s` yields only items of the kind it announces.
pub open spec fn honest<S: Stream>(s: S) -> bool {
    yields_only(s, s.hint())
}

/// `s` never yields an item.
pub open spec fn yields_nothing<S: Stream>(s: S) -> bool {
    forall|x: PipeType| !#[trigger] (s.yields())(x)
}

/// What a stream pulled from its input between two states of that input.
pub open spec fn pulled<S: Stream>(before: S, after: S) -> Seq<Option<PipeType>> {
    after.emitted().subrange(before.emitted().len() as int, after.emitted().len() as int)
}

/// When every result recorded is the byte `b`, so is every byte of the open run.
pub proof fn lemma_open_run_constant(t: Seq<Option<PipeType>>, b: u8)
    requires
        forall|i: int| 0 <= i < t.len() ==> #[trigger] t[i] == Some(PipeType::Byte(b)),
    ensures
        forall|i: int| 0 <= i < open_run(t).len() ==> #[trigger] open_run(t)[i] == b,
    decreases t.len(),
{
    if t.len() > 0 {
        lemma_open_run_constant(t.drop_last(), b);
        assert(t.last() == Some(PipeType::Byte(b)));
        assert(open_run(t) == open_run(t.drop_last()).push(b));
    }
}

/// Every item `s` can yield is a byte below `0x80`, each a whole character.
pub open spec fn ascii_items<S: Stream>(s: S) -> bool {
    forall|x: PipeType| #[trigger] (s.yields())(x) ==> (x matches PipeType::Byte(b) && b < 0x80)
}

/// Every item `s` can yield is a character below `0x80`, encoded as one byte.
pub open spec fn ascii_chars<S: Stream>(s: S) -> bool {
    forall|x: PipeType| #[trigger] (s.yields())(x) ==> (x matches PipeType::Char(c) && (c as u32) < 0x80)
}

/// When every item recorded is a byte below `0x80`, so is every byte of the
/// open run.
pub proof fn lemma_open_run_ascii(t: Seq<Option<PipeType>>)
    requires
        forall|i: int| 0 <= i < t.len() ==> (#[trigger] t[i] matches Some(x) ==> (x matches PipeType::Byte(
            b,
        ) && b < 0x80)),
    ensures
        forall|i: int| 0 <= i < open_run(t).len() ==> #[trigger] open_run(t)[i] < 0x80,
    decreases t.len(),
{
    if t.len() > 0 {
        let d = t.drop_last();
        assert forall|i: int| 0 <= i < d.len() implies (#[trigger] d[i] matches Some(x) ==> (
        x matches PipeType::Byte(b) && b < 0x80)) by {
            assert(d[i] == t[i]);
        }
        lemma_open_run_ascii(d);
        let last = t[t.len() - 1];
        assert(t.last() == last);
        if let Some(PipeType::Byte(b)) = last {
            assert(open_run(t) == open_run(d).push(b));
        }
    }
}

/// How one more result changes the open run.
pub proof fn lemma_open_run_push(t: Seq<Option<PipeType>>, x: Option<PipeType>)
    ensures
        open_run(t.push(x)) == (match x {
            Some(PipeType::Byte(b)) => open_run(t).push(b),
            _ => Seq::<u8>::empty(),
        }),
{
    assert(t.push(x).drop_last() =~= t);
}

/// The bytes held by a record of results that are all bytes.
pub open spec fn byte_values(t: Seq<Option<PipeType>>) -> Seq<u8> {
    t.map_values(|x: Option<PipeType>| match x {
        Some(PipeType::Byte(b)) => b,
        _ => 0u8,
    })
}

/// Every result of `t` is a byte.
pub open spec fn all_bytes(t: Seq<Option<PipeType>>) -> bool {
    forall|i: int| 0 <= i < t.len() ==> #[trigger] t[i] matches Some(PipeType::Byte(_))
}

/// What was pulled grows by each result recorded.
pub proof fn lemma_pulled_push<S: Stream>(a: S, b: S, c: S, x: Option<PipeType>)
    requires
        b.emitted().len() >= a.emitted().len(),
        c.emitted() == b.emitted().push(x),
    ensures
        pulled(a, c) == pulled(a, b).push(x),
        pulled(a, c).len() == pulled(a, b).len() + 1,
{
    assert(pulled(a, c) =~= pulled(a, b).push(x));
}

/// How many items (results other than `None`) a record holds.
pub open spec fn count_items(t: Seq<Option<PipeType>>) -> nat
    decreases t.len(),
{
    if t.len() == 0 {
        0
    } else {
        count_items(t.drop_last()) + if t.last() is Some {
            1nat
        } else {
            0nat
        }
    }
}

/// The open run after more results: that of the later results alone, or,
/// when they are all bytes, the earlier run followed by them.
pub proof fn lemma_open_run_concat(a: Seq<Option<PipeType>>, b: Seq<Option<PipeType>>)
    ensures
        open_run(a + b) == open_run(b) || open_run(a + b) == open_run(a) + open_run(b),
    decreases b.len(),
{
    if b.len() == 0 {
        assert(a + b =~= a);
        assert(open_run(a) + open_run(b) =~= open_run(a));
    } else {
        lemma_open_run_concat(a, b.drop_last());
        assert((a + b).drop_last() =~= a + b.drop_last());
        assert((a + b).last() == b.last());
        if let Some(PipeType::Byte(x)) = b.last() {
            assert(open_run(a + b) == open_run(a + b.drop_last()).push(x));
            assert(open_run(b) == open_run(b.drop_last()).push(x));
            if open_run(a + b.drop_last()) != open_run(b.drop_last()) {
                assert(open_run(a + b) =~= open_run(a) + open_run(b));
            }
        }
    }
}

/// `bs` follows a stream's budget through the results `p`: `bs[i]` before
/// the result `p[i]` and `bs[i + 1]` after it, never growing, and falling
/// with each item.
pub open spec fn budget_trail(p: Seq<Option<PipeType>>, bs: Seq<nat>) -> bool {
    &&& bs.len() == p.len() + 1
    &&& forall|i: int|
        0 <= i < p.len() ==> bs[i + 1] <= bs[i] && (#[trigger] p[i] is Some ==> bs[i + 1] < bs[i])
}

/// `b` is a later state of the stream `a`, reached by calls of `next`:
/// each result those calls returned (`pulled(a, b)`) is an item `a` can
/// yield or `None`; all are items when `a` is endless, the first
/// `a.assured()` of them are items, and, when `a` ends, its budget fell
/// along those results from `a.budget()` to `b.budget()`, by at least one
/// with each item.
pub open spec fn advanced<S: Stream>(a: S, b: S) -> bool {
    let p = pulled(a, b);
    &&& b.wf()
    &&& same_shape(a, b)
    &&& b.emitted().len() >= a.emitted().len()
    &&& b.emitted().subrange(0, a.emitted().len() as int) == a.emitted()
    &&& forall|i: int| 0 <= i < p.len() ==> (#[trigger] p[i] matches Some(x) ==> (a.yields())(x))
    &&& a.endless() ==> forall|i: int| 0 <= i < p.len() ==> #[trigger] p[i] is Some
    &&& forall|i: int| 0 <= i < p.len() && i < a.assured() ==> #[trigger] p[i] is Some
    &&& b.assured() + p.len() >= a.assured()
    &&& a.finite() ==> exists|bs: Seq<nat>|
        #[trigger] budget_trail(p, bs) && bs[0] == a.budget() && bs.last() == b.budget()
    &&& a.finite() && (forall|i: int| 0 <= i < p.len() ==> #[trigger] p[i] is Some) ==> b.budget()
        + p.len() <= a.budget()
}

/// A stream is a later state of itself.
pub proof fn lemma_advanced_refl<S: Stream>(a: S)
    requires
        a.wf(),
    ensures
        advanced(a, a),
{
    assert(a.emitted().subrange(0, a.emitted().len() as int) =~= a.emitted());
    assert(pulled(a, a) =~= Seq::<Option<PipeType>>::empty());
    if a.finite() {
        assert(budget_trail(pulled(a, a), seq![a.budget()]));
    }
}

/// One more call of `next`, as the trait states it, keeps a state later.
pub proof fn lemma_advanced_step<S: Stream>(a: S, b: S, c: S, x: Option<PipeType>)
    requires
        advanced(a, b),
        c.wf(),
        same_shape(b, c),
        c.emitted() == b.emitted().push(x),
        x matches Some(y) ==> (b.yields())(y),
        b.endless() ==> x is Some,
        b.assured() > 0 ==> x is Some,
        c.assured() + 1 >= b.assured(),
        b.finite() ==> c.budget() <= b.budget(),
        b.finite() && x is Some ==> c.budget() < b.budget(),
    ensures
        advanced(a, c),
{
    lemma_pulled_push(a, b, c, x);
    let p = pulled(a, b);
    assert(p.push(x).drop_last() =~= p);
    assert(c.emitted().subrange(0, a.emitted().len() as int) =~= b.emitted().subrange(0, a.emitted().len() as int));
    if a.finite() {
        let q = p.push(x);
        if forall|i: int| 0 <= i < q.len() ==> #[trigger] q[i] is Some {
            assert forall|i: int| 0 <= i < p.len() implies #[trigger] p[i] is Some by {
                assert(q[i] == p[i]);
            }
            assert(q[q.len() - 1] == x);
        }
        let bs = choose|bs: Seq<nat>|
            budget_trail(p, bs) && bs[0] == a.budget() && bs.last() == b.budget();
        let q = p.push(x);
        let cs = bs.push(c.budget());
        assert forall|i: int| 0 <= i < q.len() implies cs[i + 1] <= cs[i] && (#[trigger] q[i] is Some
            ==> cs[i + 1] < cs[i]) by {
            if i < p.len() {
                assert(q[i] == p[i]);
            }
        }
        assert(budget_trail(q, cs));
        assert(pulled(a, c) == q);
    }
}

/// One call of `next`, as the trait states it, reaches a later state.
pub proof fn lemma_advanced_once<S: Stream>(b: S, c: S, x: Option<PipeType>)
    requires
        b.wf(),
        c.wf(),
        same_shape(b, c),
        c.emitted() == b.emitted().push(x),
        x matches Some(y) ==> (b.yields())(y),
        b.endless() ==> x is Some,
        b.assured() > 0 ==> x is Some,
        c.assured() + 1 >= b.assured(),
        b.finite() ==> c.budget() <= b.budget(),
        b.finite() && x is Some ==> c.budget() < b.budget(),
    ensures
        advanced(b, c),
{
    lemma_advanced_refl(b);
    lemma_advanced_step(b, b, c, x);
}

} // verus!
