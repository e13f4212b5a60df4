//! The items that flow through a pipeline and the kinds they are announced by.
use vstd::prelude::*;

verus! {

pub type Byte = u8;

pub type Char = char;

/// A number, held as the bit pattern of an IEEE-754 double.
pub type Num = u64;

/// One item of a stream.
#[derive(Debug)]
pub enum PipeType {
    Byte(Byte),
    Char(Char),
    Num(Num),
    Multi(Vec<Option<PipeType>>),
}

/// The kind of item a stream announces that it yields.
#[derive(Debug, PartialEq, Eq, Structural, Clone, Copy)]
pub enum PipeTypeHint {
    Byte,
    Char,
    Num,
    Multi,
    Nothing,
}

impl PipeTypeHint {
    /// Whether `target` is an item of the kind `self` names; `Nothing` names no item.
    pub open spec fn spec_matches_hint(self, target: PipeType) -> bool {
        match self {
            PipeTypeHint::Byte => target is Byte,
            PipeTypeHint::Char => target is Char,
            PipeTypeHint::Num => target is Num,
            PipeTypeHint::Multi => target is Multi,
            PipeTypeHint::Nothing => false,
        }
    }

    pub fn matches_hint(&self, target: &PipeType) -> (r: bool)
        ensures
            r == self.spec_matches_hint(*target),
    {
        match self {
            PipeTypeHint::Byte => matches!(target, PipeType::Byte(_)),
            PipeTypeHint::Char => matches!(target, PipeType::Char(_)),
            PipeTypeHint::Num => matches!(target, PipeType::Num(_)),
            PipeTypeHint::Multi => matches!(target, PipeType::Multi(_)),
            PipeTypeHint::Nothing => false,
        }
    }
}

/// Whether `a` has the kind of `b`: for a group, whether every item present
/// in it has the kind of `b` (so an empty group has every kind).
pub open spec fn same_type_spec(a: PipeType, b: PipeType) -> bool
    decreases a,
{
    match a {
        PipeType::Byte(_) => b is Byte,
        PipeType::Char(_) => b is Char,
        PipeType::Num(_) => b is Num,
        PipeType::Multi(p) => forall|i: int|
            0 <= i < p@.len() ==> (#[trigger] p@[i] matches Some(x) ==> same_type_spec(x, b)),
    }
}

/// The word by which an item's kind is named in messages.
pub open spec fn kind_name_spec(item: PipeType) -> Seq<char> {
    match item {
        PipeType::Byte(_) => "byte"@,
        PipeType::Char(_) => "char"@,
        PipeType::Num(_) => "num"@,
        PipeType::Multi(_) => "multi"@,
    }
}

impl PipeType {
    /// The byte this item holds.
    pub fn byte(self) -> (b: Byte)
        requires
            self is Byte,
        ensures
            self == PipeType::Byte(b),
    {
        match self {
            PipeType::Byte(b) => b,
            _ => { proof { assert(false); } 0 },
        }
    }

    /// The character this item holds.
    pub fn char(self) -> (c: Char)
        requires
            self is Char,
        ensures
            self == PipeType::Char(c),
    {
        match self {
            PipeType::Char(c) => c,
            _ => { proof { assert(false); } '\0' },
        }
    }

    /// The number this item holds.
    pub fn num(self) -> (n: Num)
        requires
            self is Num,
        ensures
            self == PipeType::Num(n),
    {
        match self {
            PipeType::Num(n) => n,
            _ => { proof { assert(false); } 0 },
        }
    }

    /// The members of this group.
    pub fn parallel(self) -> (p: Vec<Option<PipeType>>)
        requires
            self is Multi,
        ensures
            self == PipeType::Multi(p),
    {
        match self {
            PipeType::Multi(p) => p,
            _ => { proof { assert(false); } Vec::new() },
        }
    }

    /// The word by which this item's kind is named.
    pub fn kind_name(&self) -> (s: &'static str)
        ensures
            s@ == kind_name_spec(*self),
    {
        match self {
            PipeType::Byte(_) => "byte",
            PipeType::Char(_) => "char",
            PipeType::Num(_) => "num",
            PipeType::Multi(_) => "multi",
        }
    }

    /// Whether `self` has the kind of `other`; a group has it when every item
    /// present in the group has it.
    pub fn same_type(&self, other: &Self) -> (r: bool)
        ensures
            r == same_type_spec(*self, *other),
        decreases self,
    {
        match self {
            PipeType::Byte(_) => matches!(other, PipeType::Byte(_)),
            PipeType::Char(_) => matches!(other, PipeType::Char(_)),
            PipeType::Num(_) => matches!(other, PipeType::Num(_)),
            PipeType::Multi(p) => {
                let mut i: usize = 0;
                while i < p.len()
                    invariant
                        0 <= i <= p@.len(),
                        *self == PipeType::Multi(*p),
                        forall|j: int|
                            0 <= j < i ==> (#[trigger] p@[j] matches Some(x) ==> same_type_spec(
                                x,
                                *other,
                            )),
                    decreases p@.len() - i,
                {
                    match &p[i] {
                        Some(x) => {
                            proof {
                                assert(decreases_to!(*self => (*self)->Multi_0));
                                assert((*self)->Multi_0 == *p);
                                assert(decreases_to!(*p => p@));
                                assert(decreases_to!(p@ => p@[i as int]));
                                assert(decreases_to!(p@[i as int] => p@[i as int]->0));
                            }
                            if !x.same_type(other) {
                                return false;
                            }
                        },
                        None => {},
                    }
                    i += 1;
                }
                true
            },
        }
    }
}

} // verus!
