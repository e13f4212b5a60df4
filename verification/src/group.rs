//! Stages that gather items into groups and spread groups back into items.
use vstd::prelude::*;
use std::collections::VecDeque;
use crate::item::{PipeType, PipeTypeHint};
use crate::stream::{
    Stream, honest, pulled, yields_only, yields_nothing, lemma_pulled_push, advanced,
    lemma_advanced_once, lemma_advanced_step, lemma_advanced_refl, run, lemma_run_start, lemma_run_push,
    lemma_run_drop_last, lemma_run_concat,
};

verus! {

/// Gathers the items of its input into groups of `size` pulls each.
pub struct Group<S> {
    input: S,
    size: usize,
    trace: Ghost<Seq<Option<PipeType>>>,
}

/// A group as `Group` makes it: `size` results, the first of them present,
/// each present one an item of the input.
pub open spec fn group_of<S: Stream>(input: S, size: usize, x: PipeType) -> bool {
    &&& x matches PipeType::Multi(v)
    &&& v@.len() == size
    &&& v@[0] is Some
    &&& forall|i: int|
        0 <= i < v@.len() ==> (#[trigger] v@[i] matches Some(y) ==> (input.yields())(y))
}

impl<S: Stream> Group<S> {
    /// The stream being grouped.
    pub closed spec fn input(&self) -> S {
        self.input
    }

    /// How many pulls make a group.
    pub closed spec fn group_size(&self) -> usize {
        self.size
    }

    pub fn new(input: S, size: usize) -> (r: Self)
        requires
            input.wf(),
            size > 0,
        ensures
            r.wf(),
            r.input() == input,
            r.group_size() == size,
            r.hint() == PipeTypeHint::Multi,
            r.size() == (match input.size() {
                Some(n) => Some(n / size),
                None => None,
            }),
            r.yields() == (|x: PipeType| group_of(input, size, x)),
            honest(r),
            r.finite() == input.finite(),
            r.endless() == input.endless(),
            r.emitted() == Seq::<Option<PipeType>>::empty(),
            mergeable(r),
            forall|h: PipeTypeHint| yields_only(input, h) ==> #[trigger] sequential_ready(r, h),
    {
        let r = Group { input, size, trace: Ghost(Seq::empty()) };
        proof {
            lemma_groups_mergeable(r);
            assert forall|h: PipeTypeHint| yields_only(input, h) implies #[trigger] sequential_ready(r, h) by {
                assert forall|x: PipeType| #[trigger] (r.yields())(x) implies {
                    &&& x matches PipeType::Multi(v)
                    &&& v@.len() >= 1
                    &&& forall|j: int| 0 <= j < v@.len() ==> (#[trigger] v@[j] matches Some(y) ==> h.spec_matches_hint(y))
                } by {
                    let v = x->Multi_0;
                    assert forall|j: int| 0 <= j < v@.len() implies (#[trigger] v@[j] matches Some(y) ==> h.spec_matches_hint(y)) by {
                        if let Some(y) = v@[j] {
                            assert((input.yields())(y));
                        }
                    }
                }
                assert(groups_of(r, h));
            }
        }
        r
    }
}

impl<S: Stream> Stream for Group<S> {
    closed spec fn hint(&self) -> PipeTypeHint {
        PipeTypeHint::Multi
    }

    closed spec fn size(&self) -> Option<usize> {
        match self.input.size() {
            Some(n) => Some(n / self.size),
            None => None,
        }
    }

    closed spec fn yields(&self) -> spec_fn(PipeType) -> bool {
        |x: PipeType| group_of(self.input, self.size, x)
    }

    closed spec fn emitted(&self) -> Seq<Option<PipeType>> {
        self.trace@
    }

    closed spec fn utf8_clean(&self) -> bool {
        false
    }

    closed spec fn endless(&self) -> bool {
        self.input.endless()
    }

    closed spec fn assured(&self) -> nat {
        0
    }

    closed spec fn finite(&self) -> bool {
        self.input.finite()
    }

    closed spec fn budget(&self) -> nat {
        self.input.budget()
    }

    closed spec fn wf(&self) -> bool {
        self.input.wf() && self.size > 0
    }

    /// One pull, ending the call with `None` if it returned `None`;
    /// otherwise `size` pulls in all, whose results are returned as a group.
    open spec fn step(&self, after: Self, r: Option<PipeType>) -> bool {
        &&& after.group_size() == self.group_size()
        &&& exists|ss: Seq<S>, xs: Seq<Option<PipeType>>| {
            &&& #[trigger] run(ss, xs)
            &&& ss[0] == self.input()
            &&& ss.last() == after.input()
            &&& xs.len() >= 1
            &&& xs[0] is None ==> xs.len() == 1 && r is None
            &&& xs[0] is Some ==> {
                &&& xs.len() == self.group_size()
                &&& r matches Some(PipeType::Multi(v))
                &&& v@ == xs
            }
        }
    }

    fn size_hint(&self) -> (r: Option<usize>) {
        match self.input.size_hint() {
            Some(x) => Some(x / self.size),
            None => None,
        }
    }

    fn type_hint(&self) -> (r: PipeTypeHint) {
        PipeTypeHint::Multi
    }

    /// Pulls one item, returning `None` if there is none; otherwise pulls
    /// `size - 1` more results, present or not, and returns all of them as
    /// one group.
    fn next(&mut self) -> (r: Option<PipeType>)
        ensures
            ({
                let p = pulled(old(self).input(), final(self).input());
                &&& p[0] is None ==> p.len() == 1 && r is None
                &&& p[0] is Some ==> {
                    &&& p.len() == old(self).group_size()
                    &&& r matches Some(PipeType::Multi(v))
                    &&& v@ == p
                }
                &&& p.len() >= 1
                &&& final(self).group_size() == old(self).group_size()
            }),
            advanced(old(self).input(), final(self).input()),
    {
        let ghost start = self.input;
        let first = self.input.next();
        let ghost mut ss: Seq<S> = seq![start];
        let ghost mut xs: Seq<Option<PipeType>> = Seq::empty();
        proof {
            assert(pulled(start, self.input) =~= seq![first]);
            lemma_advanced_once(start, self.input, first);
            lemma_run_start(start);
            lemma_run_push(ss, xs, self.input, first);
            ss = ss.push(self.input);
            xs = xs.push(first);
            assert(xs =~= pulled(start, self.input));
        }
        let first = match first {
            Some(x) => x,
            None => {
                proof {
                    self.trace@ = self.trace@.push(None);
                    assert(old(self).step(*self, None));
                }
                return None;
            },
        };
        let mut ret: Vec<Option<PipeType>> = Vec::with_capacity(self.size);
        ret.push(Some(first));
        let mut i: usize = 1;
        while i < self.size
            invariant
                run(ss, xs),
                ss[0] == start,
                ss.last() == self.input,
                xs == ret@,
                start == old(self).input,
                self.trace == old(self).trace,
                self.size == old(self).size,
                1 <= i <= self.size,
                self.input.wf(),
                self.input.hint() == start.hint(),
                self.input.size() == start.size(),
                self.input.yields() == start.yields(),
                self.input.finite() == start.finite(),
                self.input.endless() == start.endless(),
                self.input.utf8_clean() == start.utf8_clean(),
                start.finite() ==> self.input.budget() < start.budget(),
                self.input.emitted().len() >= start.emitted().len(),
                ret@ == pulled(start, self.input),
                ret@.len() == i,
                ret@[0] is Some,
                forall|j: int|
                    0 <= j < ret@.len() ==> (#[trigger] ret@[j] matches Some(y) ==> (
                    start.yields())(y)),
                advanced(start, self.input),
            decreases self.size - i,
        {
            let ghost before = self.input;
            let x = self.input.next();
            proof {
                lemma_pulled_push(start, before, self.input, x);
                lemma_advanced_step(start, before, self.input, x);
                lemma_run_push(ss, xs, self.input, x);
                ss = ss.push(self.input);
                xs = xs.push(x);
            }
            ret.push(x);
            i = i + 1;
        }
        let r = Some(PipeType::Multi(ret));
        proof {
            self.trace@ = self.trace@.push(r);
            assert(old(self).step(*self, r));
        }
        r
    }
}

/// The items present in a group, in order.
pub open spec fn present(v: Seq<Option<PipeType>>) -> Seq<PipeType>
    decreases v.len(),
{
    if v.len() == 0 {
        Seq::empty()
    } else {
        match v.last() {
            Some(x) => present(v.drop_last()).push(x),
            None => present(v.drop_last()),
        }
    }
}

/// `x` is present in some group that `input` can yield.
pub open spec fn member_of<S: Stream>(input: S, x: PipeType) -> bool {
    exists|v: Vec<Option<PipeType>>|
        #[trigger] (input.yields())(PipeType::Multi(v)) && v@.contains(Some(x))
}

/// The items present in a group pulled, none for a result that is not a
/// group; when every place of the group holds an item, simply those items.
pub open spec fn gathered(x: Option<PipeType>) -> Seq<PipeType> {
    match x {
        Some(PipeType::Multi(v)) => if forall|i: int| 0 <= i < v@.len() ==> #[trigger] v@[i] is Some {
            v@.map_values(|y: Option<PipeType>| y->0)
        } else {
            present(v@)
        },
        _ => Seq::empty(),
    }
}

/// A group whose places all hold an item presents those items.
pub proof fn lemma_present_full(v: Seq<Option<PipeType>>)
    requires
        forall|i: int| 0 <= i < v.len() ==> #[trigger] v[i] is Some,
    ensures
        present(v) == v.map_values(|y: Option<PipeType>| y->0),
    decreases v.len(),
{
    if v.len() > 0 {
        let d = v.drop_last();
        assert forall|i: int| 0 <= i < d.len() implies #[trigger] d[i] is Some by {
            assert(d[i] == v[i]);
        }
        lemma_present_full(d);
        assert(v.last() == v[v.len() - 1]);
        assert(v.map_values(|y: Option<PipeType>| y->0) =~= d.map_values(|y: Option<PipeType>| y->0).push(v.last()->0));
    } else {
        assert(v.map_values(|y: Option<PipeType>| y->0) =~= Seq::<PipeType>::empty());
    }
}

/// What `gathered` gives is what is present in the group.
pub proof fn lemma_gathered(x: Option<PipeType>)
    ensures
        gathered(x) == (match x {
            Some(PipeType::Multi(v)) => present(v@),
            _ => Seq::<PipeType>::empty(),
        }),
{
    if let Some(PipeType::Multi(v)) = x {
        if forall|i: int| 0 <= i < v@.len() ==> #[trigger] v@[i] is Some {
            lemma_present_full(v@);
        }
    }
}

/// The items present in the groups of a record, group after group.
pub open spec fn present_all(t: Seq<Option<PipeType>>) -> Seq<PipeType>
    decreases t.len(),
{
    if t.len() == 0 {
        Seq::empty()
    } else {
        present_all(t.drop_last()) + match t.last() {
            Some(PipeType::Multi(v)) => present(v@),
            _ => Seq::empty(),
        }
    }
}

/// Every group `input` can yield has an item present.
pub open spec fn no_empty_groups<S: Stream>(input: S) -> bool {
    forall|x: PipeType| #[trigger] (input.yields())(x) ==> (x matches PipeType::Multi(v) && present(
        v@,
    ).len() > 0)
}

/// A merge needs an input of groups that either ends or never yields an
/// empty group, so that skipping empty groups ends; or an input that has
/// nothing left to yield.
pub open spec fn mergeable<S: Stream>(input: S) -> bool {
    &&& input.wf()
    &&& {
        ||| yields_only(input, PipeTypeHint::Multi) && (input.finite() || no_empty_groups(input))
        ||| spent(input)
    }
}

/// A group with a present item at its start has an item present.
pub proof fn lemma_present_nonempty(v: Seq<Option<PipeType>>)
    requires
        v.len() > 0,
        v[0] is Some,
    ensures
        present(v).len() > 0,
    decreases v.len(),
{
    if v.len() > 1 {
        lemma_present_nonempty(v.drop_last());
    }
}

/// Everything present in `v` is an element of `v`.
pub proof fn lemma_present_members(v: Seq<Option<PipeType>>)
    ensures
        forall|i: int| 0 <= i < present(v).len() ==> v.contains(Some(#[trigger] present(v)[i])),
    decreases v.len(),
{
    if v.len() > 0 {
        lemma_present_members(v.drop_last());
        assert forall|i: int| 0 <= i < present(v).len() implies v.contains(Some(#[trigger] present(v)[i])) by {
            if i < present(v.drop_last()).len() {
                assert(v.drop_last().contains(Some(present(v)[i])));
                let j = choose|j: int| 0 <= j < v.drop_last().len() && v.drop_last()[j] == Some(present(v)[i]);
                assert(v[j] == Some(present(v)[i]));
            } else {
                assert(v[v.len() - 1] == Some(present(v)[i]));
            }
        }
    }
}

/// The groups `Group` makes can be merged: each has an item present.
pub proof fn lemma_groups_mergeable<S: Stream>(g: Group<S>)
    requires
        g.wf(),
    ensures
        mergeable(g),
{
    assert forall|x: PipeType| #[trigger] (g.yields())(x) implies (x matches PipeType::Multi(v)
        && present(v@).len() > 0) by {
        let v = x->Multi_0;
        lemma_present_nonempty(v@);
    }
}

/// Spreads the groups of its input into single items, announcing the kind
/// it was given: the items present in the first group in order, then those
/// of the next group, and so on. Each call pulls a group, queues its items
/// behind those already queued, and returns the first queued item; a group
/// with no item present is skipped when nothing is queued.
pub struct AlternatingMerge<S> {
    input: S,
    hint: PipeTypeHint,
    buffer: VecDeque<PipeType>,
    trace: Ghost<Seq<Option<PipeType>>>,
}

impl<S: Stream> AlternatingMerge<S> {
    /// The stream of groups.
    pub closed spec fn input(&self) -> S {
        self.input
    }

    /// The items queued for the next calls.
    pub closed spec fn queue(&self) -> Seq<PipeType> {
        self.buffer@
    }

    /// A merge over `input`, which must yield only groups, announcing
    /// `input_hint`.
    pub fn new(input: S, input_hint: PipeTypeHint) -> (r: Self)
        requires
            mergeable(input),
        ensures
            r.wf(),
            r.input() == input,
            r.queue() == Seq::<PipeType>::empty(),
            r.hint() == input_hint,
            r.size() == input.size(),
            r.yields() == (|x: PipeType| member_of(input, x)),
            !r.finite(),
            r.emitted() == Seq::<Option<PipeType>>::empty(),
    {
        AlternatingMerge { input, hint: input_hint, buffer: VecDeque::new(), trace: Ghost(Seq::empty()) }
    }
}

impl<S: Stream> Stream for AlternatingMerge<S> {
    closed spec fn hint(&self) -> PipeTypeHint {
        self.hint
    }

    closed spec fn size(&self) -> Option<usize> {
        self.input.size()
    }

    closed spec fn yields(&self) -> spec_fn(PipeType) -> bool {
        |x: PipeType| member_of(self.input, x)
    }

    closed spec fn emitted(&self) -> Seq<Option<PipeType>> {
        self.trace@
    }

    closed spec fn utf8_clean(&self) -> bool {
        false
    }

    closed spec fn endless(&self) -> bool {
        false
    }

    closed spec fn assured(&self) -> nat {
        0
    }

    closed spec fn finite(&self) -> bool {
        false
    }

    closed spec fn budget(&self) -> nat {
        0
    }

    closed spec fn wf(&self) -> bool {
        &&& mergeable(self.input)
        &&& forall|i: int| 0 <= i < self.buffer@.len() ==> member_of(self.input, #[trigger] self.buffer@[i])
    }

    /// Pulls a group and queues its present items, pulling again while
    /// nothing is queued and the group pulled was empty; returns the first
    /// queued item, or `None` when nothing is queued.
    open spec fn step(&self, after: Self, r: Option<PipeType>) -> bool {
        exists|ss: Seq<S>, xs: Seq<Option<PipeType>>| {
            let all = self.queue() + gathered(xs.last());
            &&& #[trigger] run(ss, xs)
            &&& ss[0] == self.input()
            &&& ss.last() == after.input()
            &&& xs.len() >= 1
            &&& xs.len() > 1 ==> self.queue().len() == 0
            &&& forall|i: int|
                0 <= i < xs.len() - 1 ==> (#[trigger] xs[i] matches Some(PipeType::Multi(v)) && present(
                    v@,
                ).len() == 0)
            &&& all.len() == 0 ==> r is None && after.queue() == all
            &&& all.len() > 0 ==> r == Some(all[0]) && after.queue() == all.drop_first()
        }
    }

    fn size_hint(&self) -> (r: Option<usize>) {
        self.input.size_hint()
    }

    fn type_hint(&self) -> (r: PipeTypeHint) {
        self.hint
    }

    /// Pulls a group and queues its present items; pulls again while
    /// nothing is queued and the group pulled was empty; then returns the
    /// first queued item, or `None` when nothing is queued.
    fn next(&mut self) -> (r: Option<PipeType>)
        ensures
            ({
                let p = pulled(old(self).input(), final(self).input());
                let q = old(self).queue();
                let all = q + present_all(p);
                &&& p.len() >= 1
                &&& p.len() > 1 ==> q.len() == 0
                &&& forall|i: int| 0 <= i < p.len() - 1 ==> (#[trigger] p[i] matches Some(
                    PipeType::Multi(v),
                ) && present(v@).len() == 0)
                &&& all.len() == 0 ==> r is None && final(self).queue() == all
                &&& all.len() > 0 ==> r == Some(all[0]) && final(self).queue() == all.drop_first()
            }),
            advanced(old(self).input(), final(self).input()),
    {
        let ghost start = self.input;
        let ghost q0 = self.buffer@;
        let ghost mut ss: Seq<S> = seq![start];
        let ghost mut xs: Seq<Option<PipeType>> = Seq::empty();
        proof {
            lemma_advanced_refl(start);
            lemma_run_start(start);
            assert(pulled(start, start) =~= xs);
        }
        loop
            invariant
                run(ss, xs),
                ss[0] == start,
                ss.last() == self.input,
                xs == pulled(start, self.input),
                advanced(start, self.input),
                start == old(self).input,
                q0 == old(self).buffer@,
                self.trace == old(self).trace,
                self.hint == old(self).hint,
                mergeable(self.input),
                self.input.hint() == start.hint(),
                self.input.size() == start.size(),
                self.input.yields() == start.yields(),
                self.input.finite() == start.finite(),
                self.input.endless() == start.endless(),
                self.input.utf8_clean() == start.utf8_clean(),
                self.input.emitted().len() >= start.emitted().len(),
                pulled(start, self.input).len() > 0 ==> q0.len() == 0,
                forall|i: int| 0 <= i < pulled(start, self.input).len() ==> (#[trigger] pulled(
                    start,
                    self.input,
                )[i] matches Some(PipeType::Multi(v)) && present(v@).len() == 0),
                present_all(pulled(start, self.input)).len() == 0,
                self.buffer@ == q0,
                forall|i: int| 0 <= i < self.buffer@.len() ==> member_of(self.input, #[trigger] self.buffer@[i]),
            decreases self.input.budget(),
        {
            let ghost before = self.input;
            let x = self.input.next();
            proof {
                lemma_pulled_push(start, before, self.input, x);
                lemma_advanced_step(start, before, self.input, x);
                lemma_run_push(ss, xs, self.input, x);
                ss = ss.push(self.input);
                xs = xs.push(x);
                let pb = pulled(start, before);
                assert(pulled(start, self.input).drop_last() =~= pb);
            }
            let items = match x {
                None => {
                    let r = self.buffer.pop_front();
                    proof {
                        self.trace@ = self.trace@.push(r);
                        let p = pulled(start, self.input);
                        assert(present_all(p) =~= Seq::<PipeType>::empty());
                        assert(q0 + present_all(p) =~= q0);
                    }
                    return r;
                },
                Some(item) => item,
            };
            let ghost group = items;
            let mut items = items.parallel();
            let ghost all_items = items@;
            proof {
                lemma_present_members(all_items);
                assert forall|i: int| 0 <= i < present(all_items).len() implies member_of(
                    self.input,
                    #[trigger] present(all_items)[i],
                ) by {
                    assert(all_items.contains(Some(present(all_items)[i])));
                }
            }
            let ghost mid = self.input;
            while items.len() > 0
                invariant
                    self.input == mid,
                    advanced(start, mid),
                    run(ss, xs),
                    ss[0] == start,
                    ss.last() == mid,
                    xs == pulled(start, mid),
                    self.hint == old(self).hint,
                    self.trace == old(self).trace,
                    group matches PipeType::Multi(gv) && gv@ == all_items,
                    (self.input.yields())(group),
                    items@.len() <= all_items.len(),
                    items@ == all_items.subrange(all_items.len() - items@.len(), all_items.len() as int),
                    self.buffer@ == q0 + present(all_items.subrange(0, all_items.len() - items@.len())),
                    forall|i: int| 0 <= i < present(all_items).len() ==> member_of(
                        self.input,
                        #[trigger] present(all_items)[i],
                    ),
                    forall|i: int| 0 <= i < self.buffer@.len() ==> member_of(self.input, #[trigger] self.buffer@[i]),
                decreases items@.len(),
            {
                let ghost k = all_items.len() - items@.len();
                let y = items.remove(0);
                proof {
                    assert(all_items[k] == y);
                    assert(all_items.subrange(0, k + 1).drop_last() =~= all_items.subrange(0, k));
                    assert(items@ =~= all_items.subrange(all_items.len() - items@.len(), all_items.len() as int));
                }
                match y {
                    Some(y) => {
                        proof {
                            assert(present(all_items.subrange(0, k + 1)) == present(all_items.subrange(0, k)).push(y));
                            assert(all_items[k] == Some(y));
                            assert(all_items.contains(Some(y)));
                            let gv = group->Multi_0;
                            assert((self.input.yields())(PipeType::Multi(gv)));
                            assert(member_of(self.input, y));
                        }
                        self.buffer.push_back(y);
                        proof {
                            assert(self.buffer@ =~= q0 + present(all_items.subrange(0, k + 1)));
                        }
                    },
                    None => {},
                }
            }
            proof {
                assert(all_items.subrange(0, all_items.len() as int) =~= all_items);
                let p = pulled(start, self.input);
                assert(p.last() == Some(group));
                assert(present_all(p) == present_all(p.drop_last()) + present(all_items));
                assert(present_all(p) =~= present(all_items));
                lemma_gathered(xs.last());
                assert(gathered(xs.last()) == present(all_items));
            }
            if self.buffer.len() > 0 {
                let r = self.buffer.pop_front();
                proof {
                    self.trace@ = self.trace@.push(r);
                    assert(old(self).step(*self, r));
                }
                return r;
            }
            proof {
                if !self.input.finite() {
                    assert((self.input.yields())(group));
                    assert(present(all_items).len() > 0);
                }
                assert(present_all(pulled(start, self.input)).len() == 0);
            }
        }
    }
}

/// A present result as a sequence of one item; an absent one as nothing.
pub open spec fn opt_item(x: Option<PipeType>) -> Seq<PipeType> {
    match x {
        Some(y) => seq![y],
        None => Seq::empty(),
    }
}

/// The queues of a sequential merge after a group `v` is added: the item
/// at place `j + 1` of the group goes behind queue `j`, and there are as
/// many queues as places after the first.
pub open spec fn add_group(cols: Seq<Seq<PipeType>>, v: Seq<Option<PipeType>>) -> Seq<Seq<PipeType>> {
    let m = if cols.len() + 1 < v.len() {
        (v.len() - 1) as nat
    } else {
        cols.len()
    };
    Seq::new(
        m,
        |j: int|
            (if j < cols.len() {
                cols[j]
            } else {
                Seq::empty()
            }) + (if j + 1 < v.len() {
                opt_item(v[j + 1])
            } else {
                Seq::empty()
            }),
    )
}

/// The first queue from `i` on that holds an item, or the number of queues
/// when none does (two queues looked at per step).
pub open spec fn first_filled(cols: Seq<Seq<PipeType>>, i: int) -> int
    decreases cols.len() - i,
{
    if i >= cols.len() {
        cols.len() as int
    } else if cols[i].len() > 0 {
        i
    } else if i + 1 >= cols.len() {
        cols.len() as int
    } else if cols[i + 1].len() > 0 {
        i + 1
    } else {
        first_filled(cols, i + 2)
    }
}

/// `first_filled` finds the first queue from `i` on that holds an item, or
/// none is left.
pub proof fn lemma_first_filled(cols: Seq<Seq<PipeType>>, i: int)
    requires
        0 <= i <= cols.len(),
    ensures
        i <= first_filled(cols, i) <= cols.len(),
        first_filled(cols, i) < cols.len() ==> cols[first_filled(cols, i)].len() > 0,
        forall|j: int| i <= j < first_filled(cols, i) ==> #[trigger] cols[j].len() == 0,
    decreases cols.len() - i,
{
    if i + 1 < cols.len() && cols[i].len() == 0 && cols[i + 1].len() == 0 {
        lemma_first_filled(cols, i + 2);
        assert forall|j: int| i <= j < first_filled(cols, i) implies #[trigger] cols[j].len() == 0 by {
            if j >= i + 2 {
                assert(first_filled(cols, i) == first_filled(cols, i + 2));
            }
        }
    }
}

/// Every result `input` yields is a group with at least one place, and
/// every item present in one is of kind `hint`.
pub open spec fn groups_of<S: Stream>(input: S, hint: PipeTypeHint) -> bool {
    forall|x: PipeType| #[trigger] (input.yields())(x) ==> {
        &&& x matches PipeType::Multi(v)
        &&& v@.len() >= 1
        &&& forall|j: int| 0 <= j < v@.len() ==> (#[trigger] v@[j] matches Some(y) ==> hint.spec_matches_hint(y))
    }
}

/// `input` ends and its budget is used up: it will not yield again.
pub open spec fn spent<S: Stream>(input: S) -> bool {
    input.finite() && input.budget() == 0
}

/// `input` can be merged sequentially: its groups have at least one place
/// and hold items of kind `hint`, or it has nothing left to yield.
pub open spec fn sequential_ready<S: Stream>(input: S, hint: PipeTypeHint) -> bool {
    &&& input.wf()
    &&& (groups_of(input, hint) || spent(input))
}

/// Hands on the streams its input carries side by side in groups, one
/// stream after the other: the items at the first place of each group as
/// they come, while the others wait in one queue per place; once the input
/// returns `None`, the queued items of the second place, then of the third,
/// and so on.
pub struct SequentialMerge<S> {
    input: S,
    hint: PipeTypeHint,
    buffers: Vec<VecDeque<PipeType>>,
    trace: Ghost<Seq<Option<PipeType>>>,
}

impl<S: Stream> SequentialMerge<S> {
    /// The stream of groups.
    pub closed spec fn input(&self) -> S {
        self.input
    }

    /// The items waiting, one queue per place after the first.
    pub closed spec fn columns(&self) -> Seq<Seq<PipeType>> {
        Seq::new(self.buffers@.len(), |j: int| self.buffers@[j]@)
    }

    /// A sequential merge over `input`, whose groups all have the same
    /// number of places and hold items of kind `input_hint`.
    pub fn new(input: S, input_hint: PipeTypeHint) -> (r: Self)
        requires
            sequential_ready(input, input_hint),
        ensures
            r.wf(),
            r.input() == input,
            r.columns() == Seq::<Seq<PipeType>>::empty(),
            r.hint() == input_hint,
            r.size() == input.size(),
            r.yields() == (|x: PipeType| member_of(input, x) && input_hint.spec_matches_hint(x)),
            honest(r),
            !r.finite(),
            r.emitted() == Seq::<Option<PipeType>>::empty(),
    {
        let r = SequentialMerge {
            input,
            hint: input_hint,
            buffers: Vec::new(),
            trace: Ghost(Seq::empty()),
        };
        proof {
            assert(r.columns() =~= Seq::<Seq<PipeType>>::empty());
        }
        r
    }
}

impl<S: Stream> SequentialMerge<S> {
    /// Takes the first item of the first queue that holds one.
    fn drain(&mut self) -> (r: Option<PipeType>)
        ensures
            final(self).input == old(self).input,
            final(self).hint == old(self).hint,
            final(self).trace == old(self).trace,
            final(self).buffers@.len() == old(self).buffers@.len(),
            ({
                let mid = old(self).columns();
                let k = first_filled(mid, 0);
                &&& k == mid.len() ==> r is None && final(self).columns() == mid
                &&& k < mid.len() ==> r == Some(mid[k][0]) && final(self).columns() == mid.update(
                    k,
                    mid[k].drop_first(),
                )
            }),
    {
        let ghost mid = self.columns();
        let mut i: usize = 0;
        proof {
            lemma_first_filled(mid, 0);
        }
        while i < self.buffers.len()
            invariant
                *self == *old(self),
                mid == self.columns(),
                i <= self.buffers@.len(),
                i <= first_filled(mid, 0) <= mid.len(),
                first_filled(mid, 0) < mid.len() ==> mid[first_filled(mid, 0)].len() > 0,
                forall|j: int| 0 <= j < first_filled(mid, 0) ==> #[trigger] mid[j].len() == 0,
            decreases self.buffers@.len() - i,
        {
            if self.buffers[i].len() > 0 {
                let mut b = self.buffers.remove(i);
                let r = b.pop_front();
                self.buffers.insert(i, b);
                proof {
                    assert(mid[i as int] == old(self).buffers@[i as int]@);
                    assert(mid[i as int].len() > 0);
                    assert(first_filled(mid, 0) == i);
                    assert(self.columns() =~= mid.update(i as int, mid[i as int].drop_first()));
                }
                return r;
            }
            proof {
                assert(mid[i as int].len() == 0);
            }
            i = i + 1;
        }
        None
    }

    /// Adds a group: its first item is returned, the others queued by place.
    fn enqueue(&mut self, items: Vec<Option<PipeType>>, Ghost(group): Ghost<PipeType>) -> (r: Option<PipeType>)
        requires
            group == PipeType::Multi(items),
            items@.len() >= 1,
        ensures
            final(self).input == old(self).input,
            final(self).hint == old(self).hint,
            final(self).trace == old(self).trace,
            r == items@[0],
            final(self).columns() == add_group(old(self).columns(), items@),
            forall|j: int, i: int|
                0 <= j < final(self).buffers@.len() && 0 <= i < final(self).buffers@[j]@.len() ==> (
                (exists|jj: int, ii: int|
                    0 <= jj < old(self).buffers@.len() && 0 <= ii < old(self).buffers@[jj]@.len()
                        && #[trigger] final(self).buffers@[j]@[i] == old(self).buffers@[jj]@[ii])
                    || items@.contains(Some(final(self).buffers@[j]@[i]))),
    {
        let ghost v = items@;
        let ghost cols = self.columns();
        let ghost m: nat = if cols.len() + 1 < v.len() {
            (v.len() - 1) as nat
        } else {
            cols.len()
        };
        proof {
            assert(cols.len() == self.buffers@.len());
        }
        let mut items = items;
        while self.buffers.len() < items.len() - 1
            invariant
                items@ == v,
                v.len() >= 1,
                cols.len() <= m,
                v.len() - 1 <= m,
                m == cols.len() || m + 1 == v.len(),
                cols.len() == old(self).buffers@.len(),
                self.input == old(self).input,
                self.hint == old(self).hint,
                self.trace == old(self).trace,
                cols.len() <= self.buffers@.len() <= m,
                self.buffers@.len() + 1 < v.len() || self.buffers@.len() == m,
                forall|c: int| 0 <= c < cols.len() ==> #[trigger] self.buffers@[c] == old(self).buffers@[c],
                forall|c: int| cols.len() <= c < self.buffers@.len() ==> #[trigger] self.buffers@[c]@.len() == 0,
            decreases m - self.buffers@.len(),
        {
            self.buffers.push(VecDeque::new());
        }
        let first = items.remove(0);
        let ghost grown = self.buffers@;
        let mut j: usize = 0;
        while items.len() > 0
            invariant
                v.len() <= usize::MAX,
                j + 1 + items@.len() == v.len(),
                items@ == v.subrange(j + 1, v.len() as int),
                self.input == old(self).input,
                self.hint == old(self).hint,
                self.trace == old(self).trace,
                self.buffers@.len() == m,
                grown.len() == m,
                v.len() - 1 <= m,
                cols.len() <= m,
                cols.len() == old(self).buffers@.len(),
                cols == old(self).columns(),
                m == (if cols.len() + 1 < v.len() {
                    (v.len() - 1) as nat
                } else {
                    cols.len()
                }),
                forall|c: int| 0 <= c < cols.len() ==> #[trigger] grown[c] == old(self).buffers@[c],
                forall|c: int| cols.len() <= c < m ==> #[trigger] grown[c]@.len() == 0,
                forall|c: int|
                    0 <= c < m ==> #[trigger] self.buffers@[c]@ == grown[c]@ + (if c < j && c + 1 < v.len() {
                        opt_item(v[c + 1])
                    } else {
                        Seq::empty()
                    }),
            decreases items@.len(),
        {
            let y = items.remove(0);
            let ghost yy = y;
            proof {
                assert(y == v[j + 1]);
                assert(items@ =~= v.subrange(j + 2, v.len() as int));
            }
            match y {
                Some(y) => {
                    let mut b = self.buffers.remove(j);
                    b.push_back(y);
                    self.buffers.insert(j, b);
                },
                None => {},
            }
            j = j + 1;
            proof {
                assert forall|c: int|
                    0 <= c < m implies #[trigger] self.buffers@[c]@ == grown[c]@ + (if c < j && c + 1
                    < v.len() {
                    opt_item(v[c + 1])
                } else {
                    Seq::empty()
                }) by {
                    if c == j - 1 {
                        assert(v[c + 1] == yy);
                    }
                }
            }
        }
        proof {
            assert(self.columns() =~= add_group(cols, v)) by {
                assert forall|c: int| 0 <= c < m implies #[trigger] self.columns()[c] == add_group(cols, v)[c] by {
                    if c < cols.len() {
                        assert(grown[c]@ == cols[c]);
                    } else {
                        assert(grown[c]@ =~= Seq::<PipeType>::empty());
                    }
                }
            }
            assert forall|jj: int, i: int|
                0 <= jj < self.buffers@.len() && 0 <= i < self.buffers@[jj]@.len() implies ((exists|
                    j2: int,
                    i2: int,
                |
                    0 <= j2 < old(self).buffers@.len() && 0 <= i2 < old(self).buffers@[j2]@.len()
                        && #[trigger] self.buffers@[jj]@[i] == old(self).buffers@[j2]@[i2])
                    || v.contains(Some(self.buffers@[jj]@[i]))) by {
                if i < grown[jj]@.len() {
                    assert(self.buffers@[jj]@[i] == grown[jj]@[i]);
                    assert(jj < cols.len());
                    assert(self.buffers@[jj]@[i] == old(self).buffers@[jj]@[i]);
                } else {
                    assert(v[jj + 1] == Some(self.buffers@[jj]@[i]));
                }
            }
        }
        first
    }
}

impl<S: Stream> Stream for SequentialMerge<S> {
    closed spec fn hint(&self) -> PipeTypeHint {
        self.hint
    }

    closed spec fn size(&self) -> Option<usize> {
        self.input.size()
    }

    closed spec fn yields(&self) -> spec_fn(PipeType) -> bool {
        |x: PipeType| member_of(self.input, x) && self.hint.spec_matches_hint(x)
    }

    closed spec fn emitted(&self) -> Seq<Option<PipeType>> {
        self.trace@
    }

    closed spec fn utf8_clean(&self) -> bool {
        false
    }

    closed spec fn endless(&self) -> bool {
        false
    }

    closed spec fn assured(&self) -> nat {
        0
    }

    closed spec fn finite(&self) -> bool {
        false
    }

    closed spec fn budget(&self) -> nat {
        0
    }

    closed spec fn wf(&self) -> bool {
        &&& sequential_ready(self.input, self.hint)
        &&& forall|j: int, i: int|
            0 <= j < self.buffers@.len() && 0 <= i < self.buffers@[j]@.len() ==> member_of(
                self.input,
                #[trigger] self.buffers@[j]@[i],
            ) && self.hint.spec_matches_hint(self.buffers@[j]@[i])
    }

    /// One pull: for a group, its first place is returned and the others
    /// queued; for `None`, the first item of the first queue holding one.
    open spec fn step(&self, after: Self, r: Option<PipeType>) -> bool {
        let mid = self.columns();
        let k = first_filled(mid, 0);
        exists|x: Option<PipeType>|
            #[trigger] self.input().step(after.input(), x) && match x {
                Some(PipeType::Multi(v)) => r == v@[0] && after.columns() == add_group(mid, v@),
                None => {
                    &&& k == mid.len() ==> r is None && after.columns() == mid
                    &&& k < mid.len() ==> r == Some(mid[k][0]) && after.columns() == mid.update(
                        k,
                        mid[k].drop_first(),
                    )
                },
                _ => false,
            }
    }

    fn size_hint(&self) -> (r: Option<usize>) {
        self.input.size_hint()
    }

    fn type_hint(&self) -> (r: PipeTypeHint) {
        self.hint
    }

    /// Pulls a group: queues all but its first place by place and returns
    /// the item at its first place, or `None` when that place is empty.
    /// When the input returns `None`, takes the first item of the first
    /// queue that holds one, or returns `None`.
    fn next(&mut self) -> (r: Option<PipeType>)
        ensures
            ({
                let p = pulled(old(self).input(), final(self).input());
                let mid = old(self).columns();
                let k = first_filled(mid, 0);
                &&& p.len() == 1
                &&& p[0] matches Some(PipeType::Multi(v)) ==> {
                    &&& r == v@[0]
                    &&& final(self).columns() == add_group(mid, v@)
                }
                &&& p[0] is None ==> {
                    &&& k == mid.len() ==> r is None && final(self).columns() == mid
                    &&& k < mid.len() ==> {
                        &&& r == Some(mid[k][0])
                        &&& final(self).columns() == mid.update(k, mid[k].drop_first())
                    }
                }
            }),
            advanced(old(self).input(), final(self).input()),
    {
        let ghost start = self.input;
        let x = self.input.next();
        proof {
            assert(pulled(start, self.input) =~= seq![x]);
            lemma_advanced_once(start, self.input, x);
        }
        match x {
            None => {
                let ghost pre = self.buffers@;
                let ghost mid = self.columns();
                let r = self.drain();
                proof {
                    let k = first_filled(mid, 0);
                    lemma_first_filled(mid, 0);
                    assert forall|j: int, i: int|
                        0 <= j < self.buffers@.len() && 0 <= i < self.buffers@[j]@.len() implies member_of(
                        self.input,
                        #[trigger] self.buffers@[j]@[i],
                    ) && self.hint.spec_matches_hint(self.buffers@[j]@[i]) by {
                        assert(self.columns()[j] == self.buffers@[j]@);
                        assert(mid[j] == pre[j]@);
                        if k < mid.len() && j == k {
                            assert(self.buffers@[j]@[i] == pre[j]@[i + 1]);
                        } else {
                            assert(self.buffers@[j]@ == pre[j]@);
                        }
                    }
                    if k < mid.len() {
                        assert(mid[k] == pre[k]@);
                        assert(member_of(self.input, pre[k]@[0]));
                    }
                    self.trace@ = self.trace@.push(r);
                }
                r
            },
            Some(item) => {
                let ghost group = item;
                proof {
                    assert((start.yields())(group));
                    assert(groups_of(self.input, self.hint));
                }
                let ghost pre = self.buffers@;
                let items = item.parallel();
                let ghost gv = items@;
                let r = self.enqueue(items, Ghost(group));
                proof {
                    assert(gv.len() >= 1);
                    if r is Some {
                        assert(gv[0] == r);
                        assert(gv.contains(r));
                        assert(gv[0] matches Some(y) ==> self.hint.spec_matches_hint(y));
                    }
                    assert forall|j: int, i: int|
                        0 <= j < self.buffers@.len() && 0 <= i < self.buffers@[j]@.len() implies member_of(
                        self.input,
                        #[trigger] self.buffers@[j]@[i],
                    ) && self.hint.spec_matches_hint(self.buffers@[j]@[i]) by {
                        let y = self.buffers@[j]@[i];
                        if !(exists|jj: int, ii: int|
                            0 <= jj < pre.len() && 0 <= ii < pre[jj]@.len()
                                && #[trigger] self.buffers@[j]@[i] == pre[jj]@[ii]) {
                            assert(gv.contains(Some(y)));
                            let k = choose|k: int| 0 <= k < gv.len() && gv[k] == Some(y);
                            assert(gv[k] matches Some(z) ==> self.hint.spec_matches_hint(z));
                        }
                    }
                    self.trace@ = self.trace@.push(r);
                }
                r
            },
        }
    }
}

/// The items present across two records are those of the first, then
/// those of the second.
pub proof fn lemma_present_all_concat(ys: Seq<Option<PipeType>>, xs: Seq<Option<PipeType>>)
    ensures
        present_all(ys + xs) == present_all(ys) + present_all(xs),
    decreases xs.len(),
{
    if xs.len() == 0 {
        assert(ys + xs =~= ys);
        assert(present_all(ys) + present_all(xs) =~= present_all(ys));
    } else {
        lemma_present_all_concat(ys, xs.drop_last());
        assert((ys + xs).drop_last() =~= ys + xs.drop_last());
        assert((ys + xs).last() == xs.last());
        let tail = match xs.last() {
            Some(PipeType::Multi(v)) => present(v@),
            _ => Seq::<PipeType>::empty(),
        };
        assert(present_all(ys) + present_all(xs.drop_last()) + tail =~= present_all(ys) + (present_all(
            xs.drop_last(),
        ) + tail));
    }
}

/// When every group of a record but the last has nothing present, the
/// items present in the record are those of the last result.
pub proof fn lemma_present_all_last(xs: Seq<Option<PipeType>>)
    requires
        xs.len() >= 1,
        forall|i: int|
            0 <= i < xs.len() - 1 ==> (#[trigger] xs[i] matches Some(PipeType::Multi(v)) && present(v@).len() == 0),
    ensures
        present_all(xs) == gathered(xs.last()),
    decreases xs.len(),
{
    lemma_gathered(xs.last());
    let d = xs.drop_last();
    if d.len() == 0 {
        assert(present_all(d) =~= Seq::<PipeType>::empty());
        assert(present_all(d) + gathered(xs.last()) =~= gathered(xs.last()));
    } else {
        assert forall|i: int| 0 <= i < d.len() - 1 implies (#[trigger] d[i] matches Some(PipeType::Multi(v))
            && present(v@).len() == 0) by {
            assert(d[i] == xs[i]);
        }
        assert(d[d.len() - 1] == xs[d.len() - 1]);
        lemma_present_all_last(d);
        lemma_gathered(d.last());
        assert(present_all(d) =~= Seq::<PipeType>::empty());
        assert(present_all(d) + gathered(xs.last()) =~= gathered(xs.last()));
    }
}

/// Over any run of calls of `next`, the items `AlternatingMerge` returned,
/// followed by those still queued, are the items queued at the start
/// followed by every item present in the groups its input returned over the
/// matching run of the input, group after group and in order within each
/// group: no item is lost, repeated or reordered.
pub proof fn law_merge_fold<S: Stream>(ms: Seq<AlternatingMerge<S>>, rs: Seq<Option<PipeType>>) -> (input_run: (
    Seq<S>,
    Seq<Option<PipeType>>,
))
    requires
        run(ms, rs),
    ensures
        run(input_run.0, input_run.1),
        input_run.0[0] == ms[0].input(),
        input_run.0.last() == ms.last().input(),
        present(rs) + ms.last().queue() == ms[0].queue() + present_all(input_run.1),
    decreases rs.len(),
{
    if rs.len() == 0 {
        lemma_run_start(ms[0].input());
        assert(present(rs) =~= Seq::<PipeType>::empty());
        assert(present_all(Seq::<Option<PipeType>>::empty()) =~= Seq::<PipeType>::empty());
        assert(present(rs) + ms.last().queue() =~= ms[0].queue() + present_all(Seq::<Option<PipeType>>::empty()));
        (seq![ms[0].input()], Seq::empty())
    } else {
        lemma_run_drop_last(ms, rs);
        let (is, ys) = law_merge_fold(ms.drop_last(), rs.drop_last());
        let a = ms[ms.len() - 2];
        let b = ms.last();
        let r = rs.last();
        let (ss, xs) = choose|ss: Seq<S>, xs: Seq<Option<PipeType>>| {
            let all = a.queue() + gathered(xs.last());
            &&& #[trigger] run(ss, xs)
            &&& ss[0] == a.input()
            &&& ss.last() == b.input()
            &&& xs.len() >= 1
            &&& xs.len() > 1 ==> a.queue().len() == 0
            &&& forall|i: int|
                0 <= i < xs.len() - 1 ==> (#[trigger] xs[i] matches Some(PipeType::Multi(v)) && present(
                    v@,
                ).len() == 0)
            &&& all.len() == 0 ==> r is None && b.queue() == all
            &&& all.len() > 0 ==> r == Some(all[0]) && b.queue() == all.drop_first()
        };
        lemma_run_concat(is, ys, ss, xs);
        lemma_present_all_concat(ys, xs);
        lemma_present_all_last(xs);
        let all = a.queue() + gathered(xs.last());
        assert(rs.drop_last().push(r) =~= rs);
        assert(rs.drop_last() == rs.drop_last());
        assert(rs.drop_last().push(r).drop_last() =~= rs.drop_last());
        let p0 = present(rs.drop_last());
        if all.len() == 0 {
            assert(present(rs) == p0);
            assert(p0 + b.queue() =~= (p0 + a.queue()) + gathered(xs.last()));
        } else {
            assert(present(rs) == p0.push(all[0]));
            assert(p0.push(all[0]) + all.drop_first() =~= (p0 + a.queue()) + gathered(xs.last()));
        }
        assert(ms[0].queue() + present_all(ys + xs) =~= (ms[0].queue() + present_all(ys)) + gathered(xs.last()));
        (is + ss.drop_first(), ys + xs)
    }
}

/// The items of the queues, the first queue's items first.
pub open spec fn flatten_columns(cols: Seq<Seq<PipeType>>) -> Seq<PipeType>
    decreases cols.len(),
{
    if cols.len() == 0 {
        Seq::empty()
    } else {
        flatten_columns(cols.drop_last()) + cols.last()
    }
}

/// The queues after every group of a record is added in turn.
pub open spec fn add_groups(cols: Seq<Seq<PipeType>>, t: Seq<Option<PipeType>>) -> Seq<Seq<PipeType>>
    decreases t.len(),
{
    if t.len() == 0 {
        cols
    } else {
        match t.last() {
            Some(PipeType::Multi(v)) => add_group(add_groups(cols, t.drop_last()), v@),
            _ => add_groups(cols, t.drop_last()),
        }
    }
}

/// The items at the first place of the groups of a record, in order.
pub open spec fn first_places(t: Seq<Option<PipeType>>) -> Seq<PipeType>
    decreases t.len(),
{
    if t.len() == 0 {
        Seq::empty()
    } else {
        first_places(t.drop_last()) + match t.last() {
            Some(PipeType::Multi(v)) => opt_item(v@[0]),
            _ => Seq::empty(),
        }
    }
}

/// Once `None` comes in a record, only `None` follows.
pub open spec fn groups_then_ends(t: Seq<Option<PipeType>>) -> bool {
    forall|i: int, j: int| 0 <= i < j < t.len() && #[trigger] t[i] is None ==> #[trigger] t[j] is None
}

/// Queues that hold nothing flatten to nothing.
proof fn lemma_flatten_empty(cols: Seq<Seq<PipeType>>)
    requires
        forall|j: int| 0 <= j < cols.len() ==> #[trigger] cols[j].len() == 0,
    ensures
        flatten_columns(cols) == Seq::<PipeType>::empty(),
    decreases cols.len(),
{
    if cols.len() > 0 {
        let d = cols.drop_last();
        assert forall|j: int| 0 <= j < d.len() implies #[trigger] d[j].len() == 0 by {
            assert(d[j] == cols[j]);
        }
        lemma_flatten_empty(d);
        assert(cols.last() == cols[cols.len() - 1]);
        assert(flatten_columns(cols) =~= Seq::<PipeType>::empty());
    }
}

/// Taking the first item of the first queue that holds one takes the first
/// of the flattened queues.
proof fn lemma_flatten_take(cols: Seq<Seq<PipeType>>, k: int)
    requires
        0 <= k < cols.len(),
        cols[k].len() > 0,
        forall|j: int| 0 <= j < k ==> #[trigger] cols[j].len() == 0,
    ensures
        flatten_columns(cols) == seq![cols[k][0]] + flatten_columns(cols.update(k, cols[k].drop_first())),
    decreases cols.len(),
{
    let d = cols.drop_last();
    let u = cols.update(k, cols[k].drop_first());
    assert(u.drop_last() =~= if k < cols.len() - 1 { d.update(k, cols[k].drop_first()) } else { d });
    if k == cols.len() - 1 {
        assert forall|j: int| 0 <= j < d.len() implies #[trigger] d[j].len() == 0 by {
            assert(d[j] == cols[j]);
        }
        lemma_flatten_empty(d);
        assert(u.last() == cols[k].drop_first());
        assert(cols.last() == cols[k]);
        assert(flatten_columns(cols) =~= seq![cols[k][0]] + flatten_columns(u));
    } else {
        assert(d[k] == cols[k]);
        assert forall|j: int| 0 <= j < k implies #[trigger] d[j].len() == 0 by {
            assert(d[j] == cols[j]);
        }
        lemma_flatten_take(d, k);
        assert(u.last() == cols.last());
        assert(flatten_columns(cols) =~= seq![cols[k][0]] + flatten_columns(u));
    }
}

/// The items present at place `j` of the groups of a record, group after
/// group; a result that is not a group, or a group without place `j`, adds
/// none.
pub open spec fn place_items(t: Seq<Option<PipeType>>, j: int) -> Seq<PipeType>
    decreases t.len(),
{
    if t.len() == 0 {
        Seq::empty()
    } else {
        place_items(t.drop_last(), j) + match t.last() {
            Some(PipeType::Multi(v)) => if 0 <= j < v@.len() {
                opt_item(v@[j])
            } else {
                Seq::empty()
            },
            _ => Seq::empty(),
        }
    }
}

/// The queues a sequential merge keeps hold its streams apart and whole:
/// after the groups of a record are added to no queues, queue `j - 1` holds
/// every item present at place `j` of those groups, in the order the groups
/// came, for every place `j >= 1` and whatever the groups' sizes; a place
/// beyond the last queue has no item present in any of them.
pub proof fn law_sequential_queues(t: Seq<Option<PipeType>>)
    ensures
        forall|j: int|
            1 <= j ==> (if j - 1 < add_groups(Seq::empty(), t).len() {
                add_groups(Seq::empty(), t)[j - 1] == #[trigger] place_items(t, j)
            } else {
                #[trigger] place_items(t, j) == Seq::<PipeType>::empty()
            }),
    decreases t.len(),
{
    if t.len() > 0 {
        let d = t.drop_last();
        law_sequential_queues(d);
        let prev = add_groups(Seq::<Seq<PipeType>>::empty(), d);
        let cols = add_groups(Seq::<Seq<PipeType>>::empty(), t);
        assert forall|j: int|
            1 <= j implies (if j - 1 < cols.len() {
                cols[j - 1] == #[trigger] place_items(t, j)
            } else {
                #[trigger] place_items(t, j) == Seq::<PipeType>::empty()
            }) by {
            let pd = place_items(d, j);
            assert(1 <= j ==> (if j - 1 < prev.len() {
                prev[j - 1] == place_items(d, j)
            } else {
                place_items(d, j) == Seq::<PipeType>::empty()
            }));
            match t.last() {
                Some(PipeType::Multi(v)) => {
                    assert(cols == add_group(prev, v@));
                    if j - 1 < cols.len() {
                        if j - 1 < prev.len() {
                            assert(cols[j - 1] =~= place_items(t, j));
                        } else {
                            assert(cols[j - 1] =~= place_items(t, j));
                        }
                    } else {
                        assert(place_items(t, j) =~= Seq::<PipeType>::empty());
                    }
                },
                _ => {
                    assert(cols == prev);
                    if j - 1 < cols.len() {
                        assert(cols[j - 1] =~= place_items(t, j));
                    } else {
                        assert(place_items(t, j) =~= Seq::<PipeType>::empty());
                    }
                },
            }
        }
    }
}

/// Over any run of calls of `next` that starts with empty queues: while its
/// input has returned only groups, `SequentialMerge` has returned the items
/// at their first places, in order, and holds the other places queued by
/// place; and when in its input's results no group follows a `None`, what
/// it returned followed by what is still queued (first queue first) is
/// stream 0 (the first places) followed by stream 1, stream 2, and so on:
/// all of one stream before the next.
pub proof fn law_merge_sequential<S: Stream>(ms: Seq<SequentialMerge<S>>, rs: Seq<Option<PipeType>>) -> (input_run: (
    Seq<S>,
    Seq<Option<PipeType>>,
))
    requires
        run(ms, rs),
        ms[0].columns() == Seq::<Seq<PipeType>>::empty(),
    ensures
        run(input_run.0, input_run.1),
        input_run.0[0] == ms[0].input(),
        input_run.0.last() == ms.last().input(),
        (forall|i: int| 0 <= i < input_run.1.len() ==> #[trigger] input_run.1[i] is Some) ==> {
            &&& present(rs) == first_places(input_run.1)
            &&& ms.last().columns() == add_groups(Seq::empty(), input_run.1)
        },
        groups_then_ends(input_run.1) ==> present(rs) + flatten_columns(ms.last().columns()) == first_places(
            input_run.1,
        ) + flatten_columns(add_groups(Seq::empty(), input_run.1)),
    decreases rs.len(),
{
    if rs.len() == 0 {
        lemma_run_start(ms[0].input());
        let e: Seq<Option<PipeType>> = Seq::empty();
        assert(present(rs) =~= Seq::<PipeType>::empty());
        assert(first_places(e) =~= Seq::<PipeType>::empty());
        assert(present(rs) + flatten_columns(ms.last().columns()) =~= first_places(e) + flatten_columns(
            add_groups(Seq::empty(), e),
        ));
        (seq![ms[0].input()], e)
    } else {
        lemma_run_drop_last(ms, rs);
        let (is, ys) = law_merge_sequential(ms.drop_last(), rs.drop_last());
        let a = ms[ms.len() - 2];
        let b = ms.last();
        let r = rs.last();
        let mid = a.columns();
        let k = first_filled(mid, 0);
        let x = choose|x: Option<PipeType>| #[trigger] a.input().step(b.input(), x) && match x {
            Some(PipeType::Multi(v)) => r == v@[0] && b.columns() == add_group(mid, v@),
            None => {
                &&& k == mid.len() ==> r is None && b.columns() == mid
                &&& k < mid.len() ==> r == Some(mid[k][0]) && b.columns() == mid.update(
                    k,
                    mid[k].drop_first(),
                )
            },
            _ => false,
        };
        lemma_run_push(is, ys, b.input(), x);
        let ys2 = ys.push(x);
        assert(ys2.drop_last() =~= ys);
        assert(rs.drop_last().push(r) =~= rs);
        let p0 = present(rs.drop_last());
        assert(present(rs) == p0 + opt_item(r)) by {
            assert(rs.drop_last().push(r).drop_last() =~= rs.drop_last());
            assert(p0 + opt_item(r) =~= match r {
                Some(y) => p0.push(y),
                None => p0,
            });
        }
        if forall|i: int| 0 <= i < ys2.len() ==> #[trigger] ys2[i] is Some {
            assert forall|i: int| 0 <= i < ys.len() implies #[trigger] ys[i] is Some by {
                assert(ys[i] == ys2[i]);
            }
            assert(ys2[ys.len() as int] == x);
        }
        if groups_then_ends(ys2) {
            assert forall|i: int, j: int| 0 <= i < j < ys.len() && #[trigger] ys[i] is None implies #[trigger] ys[j]
                is None by {
                assert(ys[i] == ys2[i] && ys[j] == ys2[j]);
            }
            match x {
                Some(PipeType::Multi(v)) => {
                    assert forall|i: int| 0 <= i < ys.len() implies #[trigger] ys[i] is Some by {
                        assert(ys[i] == ys2[i]);
                        assert(ys2[ys.len() as int] == x);
                    }
                    assert(p0 + opt_item(r) + flatten_columns(b.columns()) =~= first_places(ys) + opt_item(v@[0])
                        + flatten_columns(add_group(add_groups(Seq::empty(), ys), v@)));
                },
                None => {
                    lemma_first_filled(mid, 0);
                    if k < mid.len() {
                        lemma_flatten_take(mid, k);
                        assert(p0 + opt_item(r) + flatten_columns(b.columns()) =~= p0 + flatten_columns(mid));
                    } else {
                        lemma_flatten_empty(mid);
                        assert(p0 + opt_item(r) + flatten_columns(b.columns()) =~= p0 + flatten_columns(mid));
                    }
                    assert(first_places(ys2) == first_places(ys));
                    assert(first_places(ys2) =~= first_places(ys) + Seq::<PipeType>::empty());
                },
                _ => {},
            }
        }
        (is.push(b.input()), ys2)
    }
}

/// Over any run of calls of `next` that starts with empty queues, while its
/// input has returned only groups, `SequentialMerge` has returned the items
/// at the groups' first places, and queue `j - 1` holds every item present
/// at place `j` of the groups pulled, in order, for every place `j >= 1`:
/// no item is lost or moved to another stream.
pub proof fn law_merge_sequential_places<S: Stream>(ms: Seq<SequentialMerge<S>>, rs: Seq<Option<PipeType>>) -> (input_run: (
    Seq<S>,
    Seq<Option<PipeType>>,
))
    requires
        run(ms, rs),
        ms[0].columns() == Seq::<Seq<PipeType>>::empty(),
    ensures
        run(input_run.0, input_run.1),
        input_run.0[0] == ms[0].input(),
        input_run.0.last() == ms.last().input(),
        (forall|i: int| 0 <= i < input_run.1.len() ==> #[trigger] input_run.1[i] is Some) ==> {
            &&& present(rs) == first_places(input_run.1)
            &&& forall|j: int|
                1 <= j ==> (if j - 1 < ms.last().columns().len() {
                    ms.last().columns()[j - 1] == #[trigger] place_items(input_run.1, j)
                } else {
                    #[trigger] place_items(input_run.1, j) == Seq::<PipeType>::empty()
                })
        },
{
    let (is, ys) = law_merge_sequential(ms, rs);
    law_sequential_queues(ys);
    (is, ys)
}

/// Spreading the groups that `Group` gathered from a stream that yields only
/// items of the kind it announces, and announcing that kind, yields only items
/// of that kind.
pub proof fn law_merge_of_groups_keeps_kind<S: Stream>(m: AlternatingMerge<Group<S>>)
    requires
        honest(m.input().input()),
        m.hint() == m.input().input().hint(),
    ensures
        honest(m),
{
    let g = m.input();
    let s = g.input();
    assert forall|x: PipeType| #[trigger] (m.yields())(x) implies m.hint().spec_matches_hint(x) by {
        let v = choose|v: Vec<Option<PipeType>>|
            #[trigger] (g.yields())(PipeType::Multi(v)) && v@.contains(Some(x));
        let i = choose|i: int| 0 <= i < v@.len() && v@[i] == Some(x);
        assert(v@[i] matches Some(y) ==> (s.yields())(y));
    }
}

} // verus!
