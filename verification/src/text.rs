//! Stages that rewrite bytes or characters as text: hexadecimal, Base64 and
//! ASCII case folding.
use vstd::prelude::*;
use crate::item::{PipeType, PipeTypeHint};
use crate::stream::{
    Stream, honest, pulled, yields_only, lemma_pulled_push, advanced, lemma_advanced_once, ascii_items, ascii_chars,
    lemma_advanced_step, lemma_advanced_refl, run, lemma_run_start, lemma_run_push, lemma_run_drop_last,
};
use crate::codec::{
    hex_pair, hex_pair_spec, ascii_lower, ascii_lower_spec, ascii_upper, ascii_upper_spec, base64_group, base64_group_spec,
};
use crate::convert::{Coerced, coerce, coercible, decoded_item, encoded_item};

verus! {

/// A hexadecimal digit as `ToHex` writes it: `0`-`9` or `A`-`F`.
pub open spec fn is_hex_digit(c: char) -> bool {
    ('0' <= c <= '9') || ('A' <= c <= 'F')
}

/// Writes each byte of its input as two uppercase hexadecimal digits, the
/// high nibble first.
pub struct ToHex<S> {
    input: S,
    leftover: Option<char>,
    trace: Ghost<Seq<Option<PipeType>>>,
}

impl<S: Stream> ToHex<S> {
    /// The stream of bytes being written out.
    pub closed spec fn input(&self) -> S {
        self.input
    }

    /// The second digit of the last byte, while it is still to be returned.
    pub closed spec fn pending(&self) -> Option<char> {
        self.leftover
    }

    /// The two hexadecimal digits of `b`, high nibble first.
    pub fn to_hex(b: u8) -> (r: (char, char))
        ensures
            r == hex_pair_spec(b),
    {
        hex_pair(b)
    }
}

impl<S: Stream> ToHex<Coerced<S>> {
    /// A hexadecimal writer over `input`, made to announce bytes first.
    pub fn new(input: S) -> (r: Self)
        requires
            coercible(input, PipeTypeHint::Byte),
        ensures
            r.wf(),
            r.input().hint() == PipeTypeHint::Byte,
            input.hint() == PipeTypeHint::Byte ==> r.input() == Coerced::Same(input),
            input.hint() == PipeTypeHint::Char ==> (r.input() matches Coerced::ToBytes(e) && e.input()
                == input && e.pending() == Seq::<u8>::empty() && e.yields() == (|x: PipeType| encoded_item(
                input,
                x,
            ))),
            input.hint() == PipeTypeHint::Char ==> r.input().budget() == (if ascii_chars(input) {
                input.budget()
            } else {
                4 * input.budget()
            }),
            r.input().assured() == input.assured(),
            r.input().endless() == input.endless(),
            r.input().finite() == input.finite(),
            r.pending() is None,
            r.hint() == PipeTypeHint::Char,
            r.size() == (match input.size() {
                Some(n) => Some(n.wrapping_mul(2)),
                None => None,
            }),
            yields_only(r, PipeTypeHint::Char),
            honest(r),
            r.emitted() == Seq::<Option<PipeType>>::empty(),
    {
        ToHex { input: coerce(input, PipeTypeHint::Byte), leftover: None, trace: Ghost(Seq::empty()) }
    }
}

impl<S: Stream> Stream for ToHex<S> {
    closed spec fn hint(&self) -> PipeTypeHint {
        PipeTypeHint::Char
    }

    closed spec fn size(&self) -> Option<usize> {
        match self.input.size() {
            Some(n) => Some(n.wrapping_mul(2)),
            None => None,
        }
    }

    closed spec fn yields(&self) -> spec_fn(PipeType) -> bool {
        |x: PipeType| x matches PipeType::Char(c) && is_hex_digit(c)
    }

    closed spec fn emitted(&self) -> Seq<Option<PipeType>> {
        self.trace@
    }

    closed spec fn utf8_clean(&self) -> bool {
        false
    }

    closed spec fn endless(&self) -> bool {
        self.input.endless()
    }

    closed spec fn assured(&self) -> nat {
        0
    }

    closed spec fn finite(&self) -> bool {
        self.input.finite()
    }

    closed spec fn budget(&self) -> nat {
        2 * self.input.budget() + if self.leftover is Some {
            1nat
        } else {
            0nat
        }
    }

    closed spec fn wf(&self) -> bool {
        &&& self.input.wf()
        &&& yields_only(self.input, PipeTypeHint::Byte)
        &&& self.leftover matches Some(c) ==> is_hex_digit(c)
    }

    /// The pending second digit if there is one; otherwise one pull: `None`
    /// for `None`, and for a byte its first digit, the second pending.
    open spec fn step(&self, after: Self, r: Option<PipeType>) -> bool {
        match self.pending() {
            Some(c) => r == Some(PipeType::Char(c)) && after.pending() is None && after.input() == self.input(),
            None => exists|x: Option<PipeType>|
                #[trigger] self.input().step(after.input(), x) && match x {
                    Some(PipeType::Byte(b)) => r == Some(PipeType::Char(hex_pair_spec(b).0))
                        && after.pending() == Some(hex_pair_spec(b).1),
                    None => r is None && after.pending() is None,
                    _ => false,
                },
        }
    }

    fn size_hint(&self) -> (r: Option<usize>) {
        match self.input.size_hint() {
            Some(n) => Some(n.wrapping_mul(2)),
            None => None,
        }
    }

    fn type_hint(&self) -> (r: PipeTypeHint) {
        PipeTypeHint::Char
    }

    /// Returns the pending second digit if there is one; otherwise pulls a
    /// byte and returns its first digit, keeping the second for the next call.
    fn next(&mut self) -> (r: Option<PipeType>)
        ensures
            old(self).pending() matches Some(c) ==> {
                &&& r == Some(PipeType::Char(c))
                &&& final(self).pending() is None
                &&& final(self).input() == old(self).input()
            },
            old(self).pending() is None ==> {
                let p = pulled(old(self).input(), final(self).input());
                &&& p.len() == 1
                &&& p[0] is None ==> r is None && final(self).pending() is None
                &&& p[0] matches Some(x) ==> {
                    &&& x matches PipeType::Byte(b)
                    &&& r == Some(PipeType::Char(hex_pair_spec(b).0))
                    &&& final(self).pending() == Some(hex_pair_spec(b).1)
                }
            },
            advanced(old(self).input(), final(self).input()),
    {
        if let Some(c) = self.leftover {
            self.leftover = None;
            let r = Some(PipeType::Char(c));
            proof {
                self.trace@ = self.trace@.push(r);
                lemma_advanced_refl(self.input);
            }
            return r;
        }
        let ghost before = self.input;
        let x = self.input.next();
        proof {
            assert(pulled(before, self.input) =~= seq![x]);
            lemma_advanced_once(before, self.input, x);
        }
        match x {
            None => {
                proof {
                    self.trace@ = self.trace@.push(None);
                }
                None
            },
            Some(item) => {
                let b = item.byte();
                let chars = Self::to_hex(b);
                self.leftover = Some(chars.1);
                let r = Some(PipeType::Char(chars.0));
                proof {
                    self.trace@ = self.trace@.push(r);
                }
                r
            },
        }
    }
}

/// The results `ToHex` gives for one result of its input: two digits for a
/// byte, `None` for `None`.
pub open spec fn hex_piece(x: Option<PipeType>) -> Seq<Option<PipeType>> {
    match x {
        Some(PipeType::Byte(b)) => seq![
            Some(PipeType::Char(hex_pair_spec(b).0)),
            Some(PipeType::Char(hex_pair_spec(b).1)),
        ],
        None => seq![None],
        _ => Seq::empty(),
    }
}

/// The hexadecimal writing of a record of results, one result after another.
pub open spec fn hex_results(ys: Seq<Option<PipeType>>) -> Seq<Option<PipeType>>
    decreases ys.len(),
{
    if ys.len() == 0 {
        Seq::empty()
    } else {
        hex_results(ys.drop_last()) + hex_piece(ys.last())
    }
}

/// A digit still to be returned, as a result.
pub open spec fn pending_result(c: Option<char>) -> Seq<Option<PipeType>> {
    match c {
        Some(d) => seq![Some(PipeType::Char(d))],
        None => Seq::empty(),
    }
}

/// Over any run of calls of `next` that starts with no digit pending, what
/// `ToHex` returned, followed by the digit still pending, is the hexadecimal
/// writing of what its input returned over the matching run of the input:
/// two uppercase digits per byte, high nibble first, and `None` for `None`.
pub proof fn law_to_hex_stream<S: Stream>(ts: Seq<ToHex<S>>, rs: Seq<Option<PipeType>>) -> (input_run: (
    Seq<S>,
    Seq<Option<PipeType>>,
))
    requires
        run(ts, rs),
        ts[0].pending() is None,
    ensures
        run(input_run.0, input_run.1),
        input_run.0[0] == ts[0].input(),
        input_run.0.last() == ts.last().input(),
        hex_results(input_run.1) == rs + pending_result(ts.last().pending()),
    decreases rs.len(),
{
    if rs.len() == 0 {
        lemma_run_start(ts[0].input());
        assert(hex_results(Seq::<Option<PipeType>>::empty()) =~= rs + pending_result(ts.last().pending()));
        (seq![ts[0].input()], Seq::empty())
    } else {
        lemma_run_drop_last(ts, rs);
        let (is, ys) = law_to_hex_stream(ts.drop_last(), rs.drop_last());
        let a = ts[ts.len() - 2];
        let b = ts.last();
        let r = rs.last();
        assert(rs.drop_last().push(r) =~= rs);
        match a.pending() {
            Some(c) => {
                assert(rs + pending_result(b.pending()) =~= rs.drop_last() + pending_result(a.pending()));
                (is, ys)
            },
            None => {
                let x = choose|x: Option<PipeType>| #[trigger] a.input().step(b.input(), x) && match x {
                    Some(PipeType::Byte(v)) => r == Some(PipeType::Char(hex_pair_spec(v).0))
                        && b.pending() == Some(hex_pair_spec(v).1),
                    None => r is None && b.pending() is None,
                    _ => false,
                };
                lemma_run_push(is, ys, b.input(), x);
                let ys2 = ys.push(x);
                assert(ys2.drop_last() =~= ys);
                assert(hex_results(ys2) == hex_results(ys) + hex_piece(x));
                assert(rs + pending_result(b.pending()) =~= rs.drop_last() + hex_piece(x));
                (is.push(b.input()), ys2)
            },
        }
    }
}

/// Maps each ASCII uppercase letter of its input to lowercase.
pub struct ToLower<S> {
    input: S,
    trace: Ghost<Seq<Option<PipeType>>>,
}

impl<S: Stream> ToLower<S> {
    /// The stream of characters being mapped.
    pub closed spec fn input(&self) -> S {
        self.input
    }
}

impl<S: Stream> ToLower<Coerced<S>> {
    /// A lowercasing stage over `input`, made to announce characters first.
    pub fn new(input: S) -> (r: Self)
        requires
            coercible(input, PipeTypeHint::Char),
        ensures
            r.wf(),
            r.input().hint() == PipeTypeHint::Char,
            input.hint() == PipeTypeHint::Char ==> r.input() == Coerced::Same(input),
            input.hint() == PipeTypeHint::Byte ==> (r.input() matches Coerced::ToChars(d) && d.input()
                == input && d.yields() == (|x: PipeType| decoded_item(input, x))),
            ascii_items(input) ==> r.input().assured() == input.assured(),
            r.input().budget() == input.budget(),
            r.input().endless() == input.endless(),
            r.input().finite() == input.finite(),
            r.hint() == PipeTypeHint::Char,
            r.size() == input.size(),
            yields_only(r, PipeTypeHint::Char),
            honest(r),
            r.emitted() == Seq::<Option<PipeType>>::empty(),
    {
        ToLower { input: coerce(input, PipeTypeHint::Char), trace: Ghost(Seq::empty()) }
    }
}

impl<S: Stream> Stream for ToLower<S> {
    closed spec fn hint(&self) -> PipeTypeHint {
        PipeTypeHint::Char
    }

    closed spec fn size(&self) -> Option<usize> {
        self.input.size()
    }

    closed spec fn yields(&self) -> spec_fn(PipeType) -> bool {
        |x: PipeType| x is Char
    }

    closed spec fn emitted(&self) -> Seq<Option<PipeType>> {
        self.trace@
    }

    closed spec fn utf8_clean(&self) -> bool {
        false
    }

    closed spec fn endless(&self) -> bool {
        self.input.endless()
    }

    closed spec fn assured(&self) -> nat {
        0
    }

    closed spec fn finite(&self) -> bool {
        self.input.finite()
    }

    closed spec fn budget(&self) -> nat {
        self.input.budget()
    }

    closed spec fn wf(&self) -> bool {
        self.input.wf() && yields_only(self.input, PipeTypeHint::Char)
    }

    /// One pull, a character lowercased.
    open spec fn step(&self, after: Self, r: Option<PipeType>) -> bool {
        exists|x: Option<PipeType>|
            #[trigger] self.input().step(after.input(), x) && match x {
                Some(PipeType::Char(c)) => r == Some(PipeType::Char(ascii_lower_spec(c))),
                None => r is None,
                _ => false,
            }
    }

    fn size_hint(&self) -> (r: Option<usize>) {
        self.input.size_hint()
    }

    fn type_hint(&self) -> (r: PipeTypeHint) {
        PipeTypeHint::Char
    }

    /// Pulls one character and returns it lowercased.
    fn next(&mut self) -> (r: Option<PipeType>)
        ensures
            ({
                let p = pulled(old(self).input(), final(self).input());
                &&& p.len() == 1
                &&& p[0] is None ==> r is None
                &&& p[0] matches Some(x) ==> {
                    &&& x matches PipeType::Char(c)
                    &&& r == Some(PipeType::Char(ascii_lower_spec(c)))
                }
            }),
            advanced(old(self).input(), final(self).input()),
    {
        let ghost before = self.input;
        let x = self.input.next();
        proof {
            assert(pulled(before, self.input) =~= seq![x]);
            lemma_advanced_once(before, self.input, x);
        }
        let r = match x {
            None => None,
            Some(item) => Some(PipeType::Char(ascii_lower(item.char()))),
        };
        proof {
            self.trace@ = self.trace@.push(r);
        }
        r
    }
}

/// Maps each ASCII lowercase letter of its input to uppercase.
pub struct ToUpper<S> {
    input: S,
    trace: Ghost<Seq<Option<PipeType>>>,
}

impl<S: Stream> ToUpper<S> {
    /// The stream of characters being mapped.
    pub closed spec fn input(&self) -> S {
        self.input
    }
}

impl<S: Stream> ToUpper<Coerced<S>> {
    /// An uppercasing stage over `input`, made to announce characters first.
    pub fn new(input: S) -> (r: Self)
        requires
            coercible(input, PipeTypeHint::Char),
        ensures
            r.wf(),
            r.input().hint() == PipeTypeHint::Char,
            input.hint() == PipeTypeHint::Char ==> r.input() == Coerced::Same(input),
            input.hint() == PipeTypeHint::Byte ==> (r.input() matches Coerced::ToChars(d) && d.input()
                == input && d.yields() == (|x: PipeType| decoded_item(input, x))),
            ascii_items(input) ==> r.input().assured() == input.assured(),
            r.input().budget() == input.budget(),
            r.input().endless() == input.endless(),
            r.input().finite() == input.finite(),
            r.hint() == PipeTypeHint::Char,
            r.size() == input.size(),
            yields_only(r, PipeTypeHint::Char),
            honest(r),
            r.emitted() == Seq::<Option<PipeType>>::empty(),
    {
        ToUpper { input: coerce(input, PipeTypeHint::Char), trace: Ghost(Seq::empty()) }
    }
}

impl<S: Stream> Stream for ToUpper<S> {
    closed spec fn hint(&self) -> PipeTypeHint {
        PipeTypeHint::Char
    }

    closed spec fn size(&self) -> Option<usize> {
        self.input.size()
    }

    closed spec fn yields(&self) -> spec_fn(PipeType) -> bool {
        |x: PipeType| x is Char
    }

    closed spec fn emitted(&self) -> Seq<Option<PipeType>> {
        self.trace@
    }

    closed spec fn utf8_clean(&self) -> bool {
        false
    }

    closed spec fn endless(&self) -> bool {
        self.input.endless()
    }

    closed spec fn assured(&self) -> nat {
        0
    }

    closed spec fn finite(&self) -> bool {
        self.input.finite()
    }

    closed spec fn budget(&self) -> nat {
        self.input.budget()
    }

    closed spec fn wf(&self) -> bool {
        self.input.wf() && yields_only(self.input, PipeTypeHint::Char)
    }

    /// One pull, a character uppercased.
    open spec fn step(&self, after: Self, r: Option<PipeType>) -> bool {
        exists|x: Option<PipeType>|
            #[trigger] self.input().step(after.input(), x) && match x {
                Some(PipeType::Char(c)) => r == Some(PipeType::Char(ascii_upper_spec(c))),
                None => r is None,
                _ => false,
            }
    }

    fn size_hint(&self) -> (r: Option<usize>) {
        self.input.size_hint()
    }

    fn type_hint(&self) -> (r: PipeTypeHint) {
        PipeTypeHint::Char
    }

    /// Pulls one character and returns it uppercased.
    fn next(&mut self) -> (r: Option<PipeType>)
        ensures
            ({
                let p = pulled(old(self).input(), final(self).input());
                &&& p.len() == 1
                &&& p[0] is None ==> r is None
                &&& p[0] matches Some(x) ==> {
                    &&& x matches PipeType::Char(c)
                    &&& r == Some(PipeType::Char(ascii_upper_spec(c)))
                }
            }),
            advanced(old(self).input(), final(self).input()),
    {
        let ghost before = self.input;
        let x = self.input.next();
        proof {
            assert(pulled(before, self.input) =~= seq![x]);
            lemma_advanced_once(before, self.input, x);
        }
        let r = match x {
            None => None,
            Some(item) => Some(PipeType::Char(ascii_upper(item.char()))),
        };
        proof {
            self.trace@ = self.trace@.push(r);
        }
        r
    }
}

/// The byte a result holds, if it holds one.
pub open spec fn byte_of(x: Option<PipeType>) -> Option<u8> {
    match x {
        Some(PipeType::Byte(b)) => Some(b),
        _ => None,
    }
}

/// The character at `i` of a group's last three characters.
fn char_at(a: &[char; 3], i: usize) -> (c: char)
    requires
        i < 3,
    ensures
        c == a@[i as int],
{
    a[i]
}

/// Writes its input bytes in Base64: each group of three bytes becomes four
/// characters, and a byte missing from a group becomes `=`.
pub struct ToBase64<S> {
    input: S,
    leftover: [char; 3],
    offset: usize,
    trace: Ghost<Seq<Option<PipeType>>>,
}

impl<S: Stream> ToBase64<S> {
    /// The stream of bytes being written out.
    pub closed spec fn input(&self) -> S {
        self.input
    }

    /// The characters of the current group still to be returned.
    pub closed spec fn pending(&self) -> Seq<char> {
        if self.offset < 3 {
            self.leftover@.subrange(self.offset as int, 3)
        } else {
            Seq::empty()
        }
    }
}

impl<S: Stream> ToBase64<Coerced<S>> {
    /// A Base64 writer over `input`, made to announce bytes first.
    pub fn new(input: S) -> (r: Self)
        requires
            coercible(input, PipeTypeHint::Byte),
        ensures
            r.wf(),
            r.input().hint() == PipeTypeHint::Byte,
            input.hint() == PipeTypeHint::Byte ==> r.input() == Coerced::Same(input),
            input.hint() == PipeTypeHint::Char ==> (r.input() matches Coerced::ToBytes(e) && e.input()
                == input && e.pending() == Seq::<u8>::empty() && e.yields() == (|x: PipeType| encoded_item(
                input,
                x,
            ))),
            input.hint() == PipeTypeHint::Char ==> r.input().budget() == (if ascii_chars(input) {
                input.budget()
            } else {
                4 * input.budget()
            }),
            r.input().assured() == input.assured(),
            r.input().endless() == input.endless(),
            r.input().finite() == input.finite(),
            r.pending() == Seq::<char>::empty(),
            r.hint() == PipeTypeHint::Char,
            r.size() == (match input.size() {
                Some(n) => Some(n.wrapping_mul(4) / 3),
                None => None,
            }),
            yields_only(r, PipeTypeHint::Char),
            honest(r),
            r.emitted() == Seq::<Option<PipeType>>::empty(),
    {
        ToBase64 {
            input: coerce(input, PipeTypeHint::Byte),
            leftover: ['\0'; 3],
            offset: 3,
            trace: Ghost(Seq::empty()),
        }
    }
}

impl<S: Stream> Stream for ToBase64<S> {
    closed spec fn hint(&self) -> PipeTypeHint {
        PipeTypeHint::Char
    }

    closed spec fn size(&self) -> Option<usize> {
        match self.input.size() {
            Some(n) => Some(n.wrapping_mul(4) / 3),
            None => None,
        }
    }

    closed spec fn yields(&self) -> spec_fn(PipeType) -> bool {
        |x: PipeType| x is Char
    }

    closed spec fn emitted(&self) -> Seq<Option<PipeType>> {
        self.trace@
    }

    closed spec fn utf8_clean(&self) -> bool {
        false
    }

    closed spec fn endless(&self) -> bool {
        self.input.endless()
    }

    closed spec fn assured(&self) -> nat {
        0
    }

    closed spec fn finite(&self) -> bool {
        self.input.finite()
    }

    closed spec fn budget(&self) -> nat {
        4 * self.input.budget() + (3 - self.offset) as nat
    }

    closed spec fn wf(&self) -> bool {
        &&& self.input.wf()
        &&& yields_only(self.input, PipeTypeHint::Byte)
        &&& self.offset <= 3
    }

    /// The next pending character if there is one; otherwise one pull, and
    /// unless it returned `None`, two more, whose bytes make a group.
    open spec fn step(&self, after: Self, r: Option<PipeType>) -> bool {
        if self.pending().len() > 0 {
            &&& r == Some(PipeType::Char(self.pending()[0]))
            &&& after.pending() == self.pending().drop_first()
            &&& after.input() == self.input()
        } else {
            exists|s1: S, x0: Option<PipeType>|
                #[trigger] self.input().step(s1, x0) && match x0 {
                    None => r is None && after.input() == s1 && after.pending().len() == 0,
                    Some(PipeType::Byte(b0)) => exists|s2: S, x1: Option<PipeType>, x2: Option<PipeType>|
                        #![trigger s1.step(s2, x1), s2.step(after.input(), x2)]
                        s1.step(s2, x1) && s2.step(after.input(), x2) && {
                            let g = base64_group_spec(b0, byte_of(x1), byte_of(x2));
                            r == Some(PipeType::Char(g[0])) && after.pending() == g.drop_first()
                        },
                    _ => false,
                }
        }
    }

    fn size_hint(&self) -> (r: Option<usize>) {
        match self.input.size_hint() {
            Some(n) => Some(n.wrapping_mul(4) / 3),
            None => None,
        }
    }

    fn type_hint(&self) -> (r: PipeTypeHint) {
        PipeTypeHint::Char
    }

    /// Returns the next pending character of the current group; when none is
    /// pending, pulls a byte and, unless the input has ended, two more (either
    /// of which may be missing), and returns the group's first character.
    fn next(&mut self) -> (r: Option<PipeType>)
        ensures
            old(self).pending().len() > 0 ==> {
                &&& r == Some(PipeType::Char(old(self).pending()[0]))
                &&& final(self).pending() == old(self).pending().drop_first()
                &&& final(self).input() == old(self).input()
            },
            old(self).pending().len() == 0 ==> {
                let p = pulled(old(self).input(), final(self).input());
                &&& p.len() >= 1
                &&& p[0] is None ==> p.len() == 1 && r is None && final(self).pending().len() == 0
                &&& p[0] matches Some(x) ==> {
                    let g = base64_group_spec(byte_of(p[0])->0, byte_of(p[1]), byte_of(p[2]));
                    &&& x is Byte
                    &&& p.len() == 3
                    &&& r == Some(PipeType::Char(g[0]))
                    &&& final(self).pending() == g.drop_first()
                }
            },
            advanced(old(self).input(), final(self).input()),
    {
        if self.offset < 3 {
            let idx = self.offset;
            let c = char_at(&self.leftover, idx);
            let r = Some(PipeType::Char(c));
            proof {
                self.trace@ = self.trace@.push(r);
            }
            self.offset = idx + 1;
            proof {
                assert(self.pending() =~= old(self).pending().drop_first());
                lemma_advanced_refl(self.input);
            }
            return r;
        }
        let ghost start = self.input;
        let x0 = self.input.next();
        let ghost after0 = self.input;
        proof {
            assert(pulled(start, self.input) =~= seq![x0]);
            lemma_advanced_once(start, self.input, x0);
        }
        let b0 = match x0 {
            Some(item) => item.byte(),
            None => {
                proof {
                    self.trace@ = self.trace@.push(None);
                }
                return None;
            },
        };
        let x1 = self.input.next();
        let ghost after1 = self.input;
        let b1 = match x1 {
            Some(item) => Some(item.byte()),
            None => None,
        };
        let x2 = self.input.next();
        let b2 = match x2 {
            Some(item) => Some(item.byte()),
            None => None,
        };
        proof {
            lemma_pulled_push(start, after0, after1, x1);
            lemma_pulled_push(start, after1, self.input, x2);
            lemma_advanced_step(start, after0, after1, x1);
            lemma_advanced_step(start, after1, self.input, x2);
            let p = pulled(start, self.input);
            assert(p =~= seq![x0, x1, x2]);
            assert(b1 == byte_of(x1));
            assert(b2 == byte_of(x2));
        }
        let g = base64_group(b0, b1, b2);
        self.leftover = [g[1], g[2], g[3]];
        self.offset = 0;
        let r = Some(PipeType::Char(g[0]));
        proof {
            self.trace@ = self.trace@.push(r);
            assert(self.pending() =~= g@.drop_first());
        }
        r
    }
}


/// The four characters of a Base64 group, as results.
pub open spec fn group_results(b0: u8, b1: Option<u8>, b2: Option<u8>) -> Seq<Option<PipeType>> {
    let g = base64_group_spec(b0, b1, b2);
    seq![
        Some(PipeType::Char(g[0])),
        Some(PipeType::Char(g[1])),
        Some(PipeType::Char(g[2])),
        Some(PipeType::Char(g[3])),
    ]
}

/// `t` is the results `rs` followed by the characters `cs`.
pub open spec fn results_then_chars(t: Seq<Option<PipeType>>, rs: Seq<Option<PipeType>>, cs: Seq<char>) -> bool {
    &&& t.len() == rs.len() + cs.len()
    &&& t.subrange(0, rs.len() as int) == rs
    &&& forall|k: int| #![trigger cs[k]] 0 <= k < cs.len() ==> t[rs.len() + k] == Some(PipeType::Char(cs[k]))
}

/// The Base64 writing of a record of results read from the front: `None`
/// for `None`; for a byte and the two results after it, the four characters
/// of their group.
#[verifier::opaque]
pub open spec fn base64_results(ys: Seq<Option<PipeType>>) -> Seq<Option<PipeType>>
    decreases ys.len(),
{
    if ys.len() == 0 {
        Seq::empty()
    } else {
        match ys[0] {
            Some(PipeType::Byte(b0)) => if ys.len() >= 3 {
                group_results(b0, byte_of(ys[1]), byte_of(ys[2])) + base64_results(
                    ys.subrange(3, ys.len() as int),
                )
            } else {
                Seq::empty()
            },
            _ => seq![None] + base64_results(ys.drop_first()),
        }
    }
}

/// A record read by `ToBase64` from the front splits into whole pieces:
/// a `None`, or a byte with the two results after it.
#[verifier::opaque]
pub open spec fn base64_whole(ys: Seq<Option<PipeType>>) -> bool
    decreases ys.len(),
{
    if ys.len() == 0 {
        true
    } else {
        match ys[0] {
            Some(PipeType::Byte(_)) => ys.len() >= 3 && base64_whole(ys.subrange(3, ys.len() as int)),
            Some(_) => false,
            None => base64_whole(ys.drop_first()),
        }
    }
}

/// Whole pieces followed by more results are read as the pieces, then the rest.
#[verifier::rlimit(80)]
#[verifier::spinoff_prover]
pub proof fn lemma_base64_append(ys: Seq<Option<PipeType>>, zs: Seq<Option<PipeType>>)
    requires
        base64_whole(ys),
    ensures
        base64_results(ys + zs) == base64_results(ys) + base64_results(zs),
        base64_whole(zs) ==> base64_whole(ys + zs),
    decreases ys.len(),
{
    reveal_with_fuel(base64_results, 2);
    reveal_with_fuel(base64_whole, 2);
    if ys.len() == 0 {
        assert(ys + zs =~= zs);
        assert(base64_results(ys) + base64_results(zs) =~= base64_results(zs));
    } else {
        let yz = ys + zs;
        assert(yz[0] == ys[0]);
        match ys[0] {
            Some(PipeType::Byte(b0)) => {
                let rest = ys.subrange(3, ys.len() as int);
                lemma_base64_append(rest, zs);
                assert(yz.subrange(3, yz.len() as int) =~= rest + zs);
                assert(yz[1] == ys[1] && yz[2] == ys[2]);
                let g = group_results(b0, byte_of(ys[1]), byte_of(ys[2]));
                assert(g + (base64_results(rest) + base64_results(zs)) =~= (g + base64_results(rest))
                    + base64_results(zs));
            },
            _ => {
                let rest = ys.drop_first();
                lemma_base64_append(rest, zs);
                assert(yz.drop_first() =~= rest + zs);
                assert(seq![None] + (base64_results(rest) + base64_results(zs)) =~= (seq![None]
                    + base64_results(rest)) + base64_results(zs));
            },
        }
    }
}

/// A `None` alone is a whole piece, read as `None`; so is a byte with two
/// results after it, read as the four characters of their group.
proof fn lemma_base64_pieces(b0: u8, x1: Option<PipeType>, x2: Option<PipeType>)
    ensures
        base64_whole(seq![None::<PipeType>]),
        base64_results(seq![None]) == seq![None::<PipeType>],
        base64_whole(seq![Some(PipeType::Byte(b0)), x1, x2]),
        base64_results(seq![Some(PipeType::Byte(b0)), x1, x2]) == group_results(b0, byte_of(x1), byte_of(x2)),
{
    reveal_with_fuel(base64_results, 2);
    reveal_with_fuel(base64_whole, 2);
    let n: Seq<Option<PipeType>> = seq![None];
    assert(n.drop_first() =~= Seq::<Option<PipeType>>::empty());
    assert(base64_results(n.drop_first()) == Seq::<Option<PipeType>>::empty());
    assert(seq![None] + Seq::<Option<PipeType>>::empty() =~= n);
    let seg: Seq<Option<PipeType>> = seq![Some(PipeType::Byte(b0)), x1, x2];
    assert(seg.subrange(3, 3) =~= Seq::<Option<PipeType>>::empty());
    let g = group_results(b0, byte_of(x1), byte_of(x2));
    assert(g + Seq::<Option<PipeType>>::empty() =~= g);
}

/// One call of `ToBase64` extends the matching run of its input.
#[verifier::rlimit(80)]
#[verifier::spinoff_prover]
proof fn lemma_base64_step<S: Stream>(
    a: ToBase64<S>,
    b: ToBase64<S>,
    r: Option<PipeType>,
    is: Seq<S>,
    ys: Seq<Option<PipeType>>,
    done: Seq<Option<PipeType>>,
) -> (input_run: (Seq<S>, Seq<Option<PipeType>>))
    requires
        a.step(b, r),
        run(is, ys),
        is.last() == a.input(),
        base64_whole(ys),
        results_then_chars(base64_results(ys), done, a.pending()),
    ensures
        run(input_run.0, input_run.1),
        input_run.0[0] == is[0],
        input_run.0.last() == b.input(),
        base64_whole(input_run.1),
        results_then_chars(base64_results(input_run.1), done.push(r), b.pending()),
{
    let t = base64_results(ys);
    if a.pending().len() > 0 {
        assert(t[done.len() as int] == Some(PipeType::Char(a.pending()[0])));
        assert(t.subrange(0, done.len() as int + 1) =~= done.push(r)) by {
            assert forall|k: int| 0 <= k < done.len() implies t.subrange(0, done.len() as int + 1)[k] == done[k] by {
                assert(t.subrange(0, done.len() as int)[k] == done[k]);
            }
        }
        assert forall|k: int| #![trigger b.pending()[k]] 0 <= k < b.pending().len() implies t[done.push(r).len() + k] == Some(
            PipeType::Char(b.pending()[k]),
        ) by {
            assert(t[done.len() + (k + 1)] == Some(PipeType::Char(a.pending()[k + 1])));
        }
        (is, ys)
    } else {
        assert(t =~= done) by {
            assert(t.subrange(0, done.len() as int) == done);
        }
        let (s1, x0) = choose|s1: S, x0: Option<PipeType>| #[trigger] a.input().step(s1, x0) && match x0 {
            None => r is None && b.input() == s1 && b.pending().len() == 0,
            Some(PipeType::Byte(b0)) => exists|s2: S, x1: Option<PipeType>, x2: Option<PipeType>|
                #![trigger s1.step(s2, x1), s2.step(b.input(), x2)]
                s1.step(s2, x1) && s2.step(b.input(), x2) && {
                    let g = base64_group_spec(b0, byte_of(x1), byte_of(x2));
                    r == Some(PipeType::Char(g[0])) && b.pending() == g.drop_first()
                },
            _ => false,
        };
        lemma_run_push(is, ys, s1, x0);
        match x0 {
            None => {
                let seg: Seq<Option<PipeType>> = seq![None];
                lemma_base64_pieces(0, None, None);
                assert(ys.push(x0) =~= ys + seg);
                lemma_base64_append(ys, seg);
                assert(base64_results(ys + seg) =~= done.push(r));
                assert(done.push(r).subrange(0, done.push(r).len() as int) =~= done.push(r));
                (is.push(s1), ys.push(x0))
            },
            Some(PipeType::Byte(b0)) => {
                let (s2, x1, x2) = choose|s2: S, x1: Option<PipeType>, x2: Option<PipeType>|
                    #![trigger s1.step(s2, x1), s2.step(b.input(), x2)]
                    s1.step(s2, x1) && s2.step(b.input(), x2) && {
                        let g = base64_group_spec(b0, byte_of(x1), byte_of(x2));
                        r == Some(PipeType::Char(g[0])) && b.pending() == g.drop_first()
                    };
                let is1 = is.push(s1);
                let ys1 = ys.push(x0);
                lemma_run_push(is1, ys1, s2, x1);
                let is2 = is1.push(s2);
                let ys2 = ys1.push(x1);
                lemma_run_push(is2, ys2, b.input(), x2);
                let seg: Seq<Option<PipeType>> = seq![x0, x1, x2];
                assert(ys2.push(x2) =~= ys + seg);
                let g = base64_group_spec(b0, byte_of(x1), byte_of(x2));
                lemma_base64_pieces(b0, x1, x2);
                lemma_base64_append(ys, seg);
                let t2 = done + group_results(b0, byte_of(x1), byte_of(x2));
                assert(base64_results(ys + seg) == t2);
                assert(t2.subrange(0, done.len() as int + 1) =~= done.push(r));
                assert forall|k: int| #![trigger b.pending()[k]] 0 <= k < b.pending().len() implies t2[done.push(r).len() + k]
                    == Some(PipeType::Char(b.pending()[k])) by {
                    assert(b.pending()[k] == g[k + 1]);
                }
                (is2.push(b.input()), ys2.push(x2))
            },
            _ => {
                assert(false);
                (is, ys)
            },
        }
    }
}

/// Over any run of calls of `next` that starts with nothing pending, what
/// `ToBase64` returned, followed by the characters still pending, is the
/// padded Base64 writing of what its input returned over the matching run of
/// the input: four characters for each byte and the two results after it,
/// `=` for each of those two that holds no byte, and `None` for `None`.
pub proof fn law_to_base64_stream<S: Stream>(ts: Seq<ToBase64<S>>, rs: Seq<Option<PipeType>>) -> (input_run: (
    Seq<S>,
    Seq<Option<PipeType>>,
))
    requires
        run(ts, rs),
        ts[0].pending().len() == 0,
    ensures
        run(input_run.0, input_run.1),
        input_run.0[0] == ts[0].input(),
        input_run.0.last() == ts.last().input(),
        base64_whole(input_run.1),
        results_then_chars(base64_results(input_run.1), rs, ts.last().pending()),
    decreases rs.len(),
{
    if rs.len() == 0 {
        lemma_run_start(ts[0].input());
        reveal_with_fuel(base64_whole, 2);
        reveal_with_fuel(base64_results, 2);
        assert(base64_results(Seq::<Option<PipeType>>::empty()).subrange(0, 0) =~= rs);
        (seq![ts[0].input()], Seq::empty())
    } else {
        lemma_run_drop_last(ts, rs);
        let (is, ys) = law_to_base64_stream(ts.drop_last(), rs.drop_last());
        assert(rs.drop_last().push(rs.last()) =~= rs);
        lemma_base64_step(ts[ts.len() - 2], ts.last(), rs.last(), is, ys, rs.drop_last())
    }
}

} // verus!

