use pipetool::item::{PipeType, PipeTypeHint};
use pipetool::convert::{coerce, BytesToChars, CharsToBytes, Coerced};
use pipetool::group::{AlternatingMerge, Group, SequentialMerge};
use pipetool::source::{Discard, FromBytes, GenerateByte, GenerateChar, GenerateNum, Pass};
use pipetool::stream::Stream;
use pipetool::text::{ToBase64, ToHex, ToLower, ToUpper};
use pipetool::window::{Skip, Take};

/// A stream over a fixed list of items, ending with `None` forever.
struct Items {
    items: Vec<PipeType>,
    hint: PipeTypeHint,
    pos: usize,
}

impl Items {
    fn bytes(bytes: &[u8]) -> Items {
        Items { items: bytes.iter().map(|b| PipeType::Byte(*b)).collect(), hint: PipeTypeHint::Byte, pos: 0 }
    }

    fn chars(text: &str) -> Items {
        Items { items: text.chars().map(PipeType::Char).collect(), hint: PipeTypeHint::Char, pos: 0 }
    }

    fn groups(groups: Vec<Vec<Option<u8>>>) -> Items {
        let items = groups
            .into_iter()
            .map(|g| PipeType::Multi(g.into_iter().map(|b| b.map(PipeType::Byte)).collect()))
            .collect();
        Items { items, hint: PipeTypeHint::Multi, pos: 0 }
    }
}

impl Stream for Items {
    fn hint(&self) -> PipeTypeHint {
        panic!("model only")
    }

    fn size(&self) -> Option<usize> {
        panic!("model only")
    }

    fn yields(&self) -> vstd::prelude::FnSpec<(PipeType,), bool> {
        panic!("model only")
    }

    fn emitted(&self) -> vstd::seq::Seq<Option<PipeType>> {
        panic!("model only")
    }

    fn finite(&self) -> bool {
        panic!("model only")
    }

    fn budget(&self) -> vstd::prelude::nat {
        panic!("model only")
    }

    fn wf(&self) -> bool {
        panic!("model only")
    }

    fn utf8_clean(&self) -> bool {
        panic!("model only")
    }

    fn endless(&self) -> bool {
        panic!("model only")
    }

    fn assured(&self) -> vstd::prelude::nat {
        panic!("model only")
    }

    fn step(&self, _after: Self, _r: Option<PipeType>) -> bool {
        panic!("model only")
    }

    fn size_hint(&self) -> Option<usize> {
        Some(self.items.len())
    }

    fn type_hint(&self) -> PipeTypeHint {
        self.hint
    }

    fn next(&mut self) -> Option<PipeType> {
        if self.pos < self.items.len() {
            let x = std::mem::replace(&mut self.items[self.pos], PipeType::Byte(0));
            self.pos += 1;
            Some(x)
        } else {
            None
        }
    }
}

fn chars_of<S: Stream>(s: &mut S, n: usize) -> String {
    let mut out = String::new();
    for _ in 0..n {
        match s.next() {
            Some(PipeType::Char(c)) => out.push(c),
            Some(_) => out.push('?'),
            None => out.push('_'),
        }
    }
    out
}

fn bytes_of<S: Stream>(s: &mut S, n: usize) -> Vec<Option<u8>> {
    (0..n)
        .map(|_| match s.next() {
            Some(PipeType::Byte(b)) => Some(b),
            Some(other) => panic!("expected a byte, got a {}", other.kind_name()),
            None => None,
        })
        .collect()
}

fn group_of(x: Option<PipeType>) -> Option<Vec<Option<u8>>> {
    match x {
        Some(PipeType::Multi(v)) => Some(
            v.into_iter()
                .map(|m| match m {
                    Some(PipeType::Byte(b)) => Some(b),
                    Some(_) => panic!("expected bytes"),
                    None => None,
                })
                .collect(),
        ),
        Some(other) => panic!("expected a group, got a {}", other.kind_name()),
        None => None,
    }
}

#[test]
fn discard_drains_its_input() {
    let mut d = Discard::uncoerced(Take::new(GenerateByte::new(1), 3));
    assert_eq!(d.type_hint(), PipeTypeHint::Nothing);
    assert_eq!(d.size_hint(), Some(0));
    assert!(d.next().is_none());
    assert!(d.next().is_none());
}

#[test]
fn pass_hands_on_items() {
    let mut s = Pass::new(Items::bytes(&[4, 5]));
    assert_eq!(s.type_hint(), PipeTypeHint::Byte);
    assert_eq!(s.size_hint(), Some(2));
    assert_eq!(bytes_of(&mut s, 3), vec![Some(4), Some(5), None]);
}

#[test]
fn generators_repeat_their_item() {
    let mut b = GenerateByte::new(7);
    assert_eq!(bytes_of(&mut b, 3), vec![Some(7), Some(7), Some(7)]);
    assert_eq!(b.size_hint(), None);
    assert_eq!(b.type_hint(), PipeTypeHint::Byte);
    let mut c = GenerateChar::new('q');
    assert_eq!(chars_of(&mut c, 2), "qq");
    assert_eq!(c.type_hint(), PipeTypeHint::Char);
    let bits = 2.5f64.to_bits();
    let mut n = GenerateNum::new(bits);
    assert!(matches!(n.next(), Some(PipeType::Num(x)) if x == bits));
    assert_eq!(n.type_hint(), PipeTypeHint::Num);
    assert_eq!(n.size_hint(), None);
}

#[test]
fn to_hex_writes_two_digits_per_byte() {
    let mut s = ToHex::new(Items::bytes(&[0xAB, 0x05, 0xF0]));
    assert_eq!(s.type_hint(), PipeTypeHint::Char);
    assert_eq!(s.size_hint(), Some(6));
    assert_eq!(chars_of(&mut s, 7), "AB05F0_");
}

#[test]
fn to_hex_function() {
    assert_eq!(ToHex::<Items>::to_hex(0x9c), ('9', 'C'));
}

#[test]
fn to_hex_of_characters_writes_their_utf8() {
    let mut s = ToHex::new(Items::chars("é"));
    assert_eq!(chars_of(&mut s, 5), "C3A9_");
}

#[test]
fn to_lower_lowers_ascii_letters() {
    let mut s = ToLower::new(Items::chars("HeLLo, WORLD É"));
    assert_eq!(chars_of(&mut s, 15), "hello, world É_");
}

#[test]
fn to_upper_raises_ascii_letters() {
    let mut s = ToUpper::new(Items::chars("HeLLo, wörld"));
    assert_eq!(s.type_hint(), PipeTypeHint::Char);
    assert_eq!(chars_of(&mut s, 13), "HELLO, WöRLD_");
}

#[test]
fn to_lower_of_bytes_decodes_them_first() {
    let mut s = ToLower::new(Items::bytes("ABé".as_bytes()));
    assert_eq!(chars_of(&mut s, 4), "abé_");
}

#[test]
fn to_base64_full_groups() {
    let mut s = ToBase64::new(Items::bytes(b"Man"));
    assert_eq!(chars_of(&mut s, 5), "TWFu_");
    let mut s = ToBase64::new(Items::bytes(b"hello!"));
    assert_eq!(chars_of(&mut s, 9), "aGVsbG8h_");
}

#[test]
fn to_base64_pads_short_groups() {
    let mut s = ToBase64::new(Items::bytes(b"Ma"));
    assert_eq!(chars_of(&mut s, 5), "TWE=_");
    let mut s = ToBase64::new(Items::bytes(b"M"));
    assert_eq!(chars_of(&mut s, 5), "TQ==_");
    let mut s = ToBase64::new(Items::bytes(b"hello"));
    assert_eq!(chars_of(&mut s, 9), "aGVsbG8=_");
}

#[test]
fn to_base64_size_hint() {
    let s = ToBase64::new(Items::bytes(b"hello!"));
    assert_eq!(s.size_hint(), Some(8));
    assert_eq!(s.type_hint(), PipeTypeHint::Char);
}

#[test]
fn chars_to_bytes_encodes_utf8() {
    let mut s = CharsToBytes::new(Items::chars("aé€"));
    assert_eq!(s.type_hint(), PipeTypeHint::Byte);
    assert_eq!(
        bytes_of(&mut s, 7),
        vec![Some(0x61), Some(0xC3), Some(0xA9), Some(0xE2), Some(0x82), Some(0xAC), None]
    );
}

#[test]
fn bytes_to_chars_decodes_utf8() {
    let text = "héllo€😀";
    let mut s = BytesToChars::new(Items::bytes(text.as_bytes()));
    assert_eq!(s.type_hint(), PipeTypeHint::Char);
    assert_eq!(chars_of(&mut s, 8), "héllo€😀_");
}

#[test]
fn bytes_to_chars_ends_on_a_cut_character() {
    let mut s = BytesToChars::new(Items::bytes(&[0x61, 0xE2, 0x82]));
    assert_eq!(chars_of(&mut s, 3), "a__");
}

#[test]
fn decoding_what_was_encoded_gives_the_characters_back() {
    let mut s = BytesToChars::new(Items::chars("ça va? 😀"));
    assert_eq!(chars_of(&mut s, 9), "ça va? 😀_");
}

#[test]
fn encoding_what_was_decoded_gives_the_bytes_back() {
    let bytes = "añ€".as_bytes();
    let mut s = CharsToBytes::new(Items::bytes(bytes));
    let mut expected: Vec<Option<u8>> = bytes.iter().map(|b| Some(*b)).collect();
    expected.push(None);
    assert_eq!(bytes_of(&mut s, bytes.len() + 1), expected);
}

#[test]
fn coerce_keeps_a_stream_of_the_asked_kind() {
    let c = coerce(Items::bytes(&[1]), PipeTypeHint::Byte);
    assert!(matches!(c, Coerced::Same(_)));
    assert_eq!(c.type_hint(), PipeTypeHint::Byte);
}

#[test]
fn coerce_to_nothing_drains() {
    let mut c = coerce(Items::bytes(&[1, 2]), PipeTypeHint::Nothing);
    assert!(matches!(c, Coerced::Discard(_)));
    assert_eq!(c.type_hint(), PipeTypeHint::Nothing);
    assert_eq!(c.size_hint(), Some(0));
    assert!(c.next().is_none());
}

#[test]
fn coerce_between_bytes_and_chars() {
    let mut c = coerce(Items::bytes(&[0x68, 0x69]), PipeTypeHint::Char);
    assert!(matches!(c, Coerced::ToChars(_)));
    assert_eq!(chars_of(&mut c, 3), "hi_");
    let mut c = coerce(Items::chars("é"), PipeTypeHint::Byte);
    assert!(matches!(c, Coerced::ToBytes(_)));
    assert_eq!(bytes_of(&mut c, 3), vec![Some(0xC3), Some(0xA9), None]);
}

#[test]
fn group_gathers_fixed_size_groups() {
    let mut g = Group::new(Items::bytes(&[1, 2, 3, 4, 5]), 2);
    assert_eq!(g.type_hint(), PipeTypeHint::Multi);
    assert_eq!(g.size_hint(), Some(2));
    assert_eq!(group_of(g.next()), Some(vec![Some(1), Some(2)]));
    assert_eq!(group_of(g.next()), Some(vec![Some(3), Some(4)]));
    assert_eq!(group_of(g.next()), Some(vec![Some(5), None]));
    assert_eq!(group_of(g.next()), None);
}

#[test]
fn alternating_merge_spreads_a_group() {
    let mut m = AlternatingMerge::new(
        Items::groups(vec![vec![Some(1), None, Some(2), Some(3)]]),
        PipeTypeHint::Byte,
    );
    assert_eq!(m.type_hint(), PipeTypeHint::Byte);
    assert_eq!(bytes_of(&mut m, 4), vec![Some(1), Some(2), Some(3), None]);
}

#[test]
fn alternating_merge_loses_no_item() {
    let mut m = AlternatingMerge::new(
        Items::groups(vec![vec![Some(1), Some(2)], vec![Some(3), Some(4)], vec![Some(5)]]),
        PipeTypeHint::Byte,
    );
    assert_eq!(bytes_of(&mut m, 6), vec![Some(1), Some(2), Some(3), Some(4), Some(5), None]);
}

#[test]
fn alternating_merge_skips_empty_groups() {
    let mut m = AlternatingMerge::new(
        Items::groups(vec![vec![None, None], vec![Some(1)], vec![None], vec![], vec![Some(2), None]]),
        PipeTypeHint::Byte,
    );
    assert_eq!(bytes_of(&mut m, 3), vec![Some(1), Some(2), None]);
}

#[test]
fn alternating_merge_of_only_empty_groups() {
    let mut m = AlternatingMerge::new(Items::groups(vec![vec![None, None]]), PipeTypeHint::Byte);
    assert_eq!(bytes_of(&mut m, 2), vec![None, None]);
}

#[test]
fn alternating_merge_of_hex_digits_in_groups() {
    let g = Group::new(ToHex::new(Take::new(GenerateByte::new(0x12), 2)), 2);
    let mut m = AlternatingMerge::new(g, PipeTypeHint::Char);
    assert_eq!(chars_of(&mut m, 5), "1212_");
}

#[test]
fn merge_of_groups_gives_the_items_back_in_order() {
    let g = Group::new(Items::bytes(&[1, 2, 3]), 3);
    let mut m = AlternatingMerge::new(g, PipeTypeHint::Byte);
    assert_eq!(bytes_of(&mut m, 4), vec![Some(1), Some(2), Some(3), None]);
}

#[test]
fn sequential_merge_of_an_empty_input() {
    let d = Discard::uncoerced(Take::new(GenerateByte::new(1), 2));
    let mut m = SequentialMerge::new(d, PipeTypeHint::Byte);
    assert_eq!(m.type_hint(), PipeTypeHint::Byte);
    assert_eq!(m.size_hint(), Some(0));
    assert!(m.next().is_none());
}

#[test]
fn sequential_merge_of_a_spent_input() {
    let mut m = SequentialMerge::new(Take::new(GenerateByte::new(1), 0), PipeTypeHint::Byte);
    assert!(m.next().is_none());
    let mut m = AlternatingMerge::new(Take::new(GenerateByte::new(1), 0), PipeTypeHint::Byte);
    assert!(m.next().is_none());
}

#[test]
fn sequential_merge_hands_on_one_stream_after_the_other() {
    let g = Group::new(ToHex::new(Take::new(GenerateByte::new(0x12), 2)), 2);
    let mut m = SequentialMerge::new(g, PipeTypeHint::Char);
    assert_eq!(chars_of(&mut m, 5), "1122_");
}

#[test]
fn sequential_merge_of_three_streams() {
    let mut m = SequentialMerge::new(
        Items::groups(vec![
            vec![Some(1), Some(2), Some(3)],
            vec![None, Some(5), None],
            vec![Some(7), None, Some(9)],
        ]),
        PipeTypeHint::Byte,
    );
    assert_eq!(bytes_of(&mut m, 8), vec![Some(1), None, Some(7), Some(2), Some(5), Some(3), Some(9), None]);
}

#[test]
fn skip_drops_the_first_items() {
    let mut s = Skip::new(Items::bytes(&[1, 2, 3, 4, 5]), 2);
    assert_eq!(s.size_hint(), Some(3));
    assert_eq!(bytes_of(&mut s, 4), vec![Some(3), Some(4), Some(5), None]);
}

#[test]
fn skip_on_a_short_input() {
    let mut s = Skip::new(Items::bytes(&[1]), 3);
    assert_eq!(s.size_hint(), Some(0));
    assert_eq!(bytes_of(&mut s, 2), vec![None, None]);
}

#[test]
fn take_stops_after_num_pulls() {
    let mut t = Take::new(Items::bytes(&[1, 2, 3, 4, 5]), 2);
    assert_eq!(t.size_hint(), Some(2));
    assert_eq!(t.type_hint(), PipeTypeHint::Byte);
    assert_eq!(bytes_of(&mut t, 4), vec![Some(1), Some(2), None, None]);
    let t = Take::new(Items::bytes(&[1]), 4);
    assert_eq!(t.size_hint(), Some(1));
}

#[test]
fn take_of_an_endless_stream() {
    let mut t = Take::new(GenerateChar::new('z'), 3);
    assert_eq!(chars_of(&mut t, 5), "zzz__");
}

#[test]
fn take_of_a_generator_yields_its_byte() {
    let mut t = Take::new(GenerateByte::new(9), 2);
    assert_eq!(bytes_of(&mut t, 3), vec![Some(9), Some(9), None]);
}

#[test]
fn base64_of_one_byte_taken_from_a_generator() {
    let mut s = ToBase64::new(Take::new(GenerateByte::new(0x4D), 1));
    assert_eq!(chars_of(&mut s, 5), "TQ==_");
}

#[test]
fn coerce_ascii_bytes_taken_from_a_generator_to_chars() {
    let mut c = coerce(Take::new(GenerateByte::new(0x41), 1), PipeTypeHint::Char);
    assert_eq!(c.type_hint(), PipeTypeHint::Char);
    assert_eq!(chars_of(&mut c, 2), "A_");
}

#[test]
fn lower_of_a_byte_generator() {
    let mut s = ToLower::new(GenerateByte::new(0x41));
    assert_eq!(chars_of(&mut s, 3), "aaa");
}

#[test]
fn group_of_taken_bytes() {
    let mut g = Group::new(Take::new(GenerateByte::new(7), 3), 2);
    assert_eq!(group_of(g.next()), Some(vec![Some(7), Some(7)]));
    assert_eq!(group_of(g.next()), Some(vec![Some(7), None]));
    assert_eq!(group_of(g.next()), None);
}

#[test]
fn coerce_skipped_ascii_bytes_to_chars() {
    let mut c = coerce(Skip::new(GenerateByte::new(0x41), 1), PipeTypeHint::Char);
    assert_eq!(chars_of(&mut c, 2), "AA");
}

#[test]
fn lower_of_bytes_taken_from_a_generator() {
    let mut s = ToLower::new(Take::new(GenerateByte::new(0x41), 1));
    assert_eq!(chars_of(&mut s, 2), "a_");
}

#[test]
fn sequential_merge_of_a_group_with_an_empty_first_place() {
    let mut m = SequentialMerge::new(Items::groups(vec![vec![None, Some(4)]]), PipeTypeHint::Byte);
    assert_eq!(bytes_of(&mut m, 3), vec![None, Some(4), None]);
}

#[test]
fn to_hex_size_hint_wraps() {
    let h = ToHex::new(Items::bytes(&[1, 2, 3]));
    assert_eq!(h.size_hint(), Some(6));
    let b = ToBase64::new(Items::bytes(&[1, 2, 3]));
    assert_eq!(b.size_hint(), Some(4));
}

#[test]
fn encoder_over_a_char_generator() {
    let mut e = CharsToBytes::new(GenerateChar::new('A'));
    assert_eq!(bytes_of(&mut e, 2), vec![Some(0x41), Some(0x41)]);
}

#[test]
fn hex_of_chars_taken_from_a_generator() {
    let mut h = ToHex::new(Take::new(GenerateChar::new('A'), 1));
    assert_eq!(chars_of(&mut h, 3), "41_");
}

#[test]
fn base64_of_one_char_taken_from_a_generator() {
    let mut s = ToBase64::new(Take::new(GenerateChar::new('M'), 1));
    assert_eq!(chars_of(&mut s, 5), "TQ==_");
}

#[test]
fn skip_then_end_of_taken_bytes() {
    let mut k = Skip::new(Take::new(GenerateByte::new(7), 3), 2);
    assert_eq!(bytes_of(&mut k, 2), vec![Some(7), None]);
}

fn chars_until_none<S: Stream>(s: &mut S) -> String {
    let mut out = String::new();
    for _ in 0..1000 {
        match s.next() {
            Some(PipeType::Char(c)) => out.push(c),
            Some(_) => out.push('?'),
            None => return out,
        }
    }
    out
}

#[test]
fn from_bytes_yields_its_bytes_then_ends() {
    let mut s = FromBytes::new(vec![1, 2, 3]);
    assert_eq!(s.size_hint(), Some(3));
    assert_eq!(s.type_hint(), PipeTypeHint::Byte);
    assert_eq!(bytes_of(&mut s, 5), vec![Some(1), Some(2), Some(3), None, None]);
}

#[test]
fn base64_of_hello() {
    let mut s = ToBase64::new(FromBytes::new(b"hello!".to_vec()));
    assert_eq!(chars_until_none(&mut s), "aGVsbG8h");
    assert!(s.next().is_none());
}

#[test]
fn base64_twice_of_hello() {
    let mut s = ToBase64::new(ToBase64::new(FromBytes::new(b"hello!".to_vec())));
    assert_eq!(chars_until_none(&mut s), "YUdWc2JHOGg=");
}

#[test]
fn hex_of_hello() {
    let mut s = ToHex::new(FromBytes::new(b"hello!".to_vec()));
    assert_eq!(chars_until_none(&mut s), "68656C6C6F21");
}

#[test]
fn decoding_encoded_chars_of_a_list() {
    let mut d = BytesToChars::new(CharsToBytes::new(Items::chars("héllo €")));
    assert_eq!(chars_until_none(&mut d), "héllo €");
}

#[test]
fn sequential_merge_of_hex_groups_of_hello() {
    let g = Group::new(ToHex::new(FromBytes::new(b"hi".to_vec())), 2);
    let mut m = SequentialMerge::new(g, PipeTypeHint::Char);
    assert_eq!(chars_of(&mut m, 5), "6689_");
}

#[test]
fn alternating_merge_of_hex_groups_of_hello() {
    let g = Group::new(ToHex::new(FromBytes::new(b"hi".to_vec())), 2);
    let mut m = AlternatingMerge::new(g, PipeTypeHint::Char);
    assert_eq!(chars_of(&mut m, 5), "6869_");
}

#[test]
fn sequential_merge_of_growing_groups() {
    let mut m = SequentialMerge::new(
        Items::groups(vec![vec![Some(1)], vec![Some(2), Some(3)], vec![Some(4), Some(5), Some(6)]]),
        PipeTypeHint::Byte,
    );
    assert_eq!(bytes_of(&mut m, 7), vec![Some(1), Some(2), Some(4), Some(3), Some(5), Some(6), None]);
}

#[test]
fn decoding_multibyte_text_from_bytes() {
    let mut d = BytesToChars::new(FromBytes::new("héllo €".as_bytes().to_vec()));
    assert_eq!(chars_until_none(&mut d), "héllo €");
}

#[test]
fn decoder_over_encoder_gives_the_character_back() {
    let t = Take::new(GenerateChar::new('é'), 1);
    let mut d = BytesToChars::uncoerced(CharsToBytes::uncoerced(t));
    assert!(matches!(d.next(), Some(PipeType::Char('é'))));
    assert!(d.next().is_none());
}
