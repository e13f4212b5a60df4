//! Character-level encodings used by the converting stages: hexadecimal digits,
//! Base64 digits, ASCII case folding and the UTF-8 encoding of one character.
use vstd::prelude::*;
use vstd::utf8::{
    encode_scalar, valid_first_scalar, pop_first_scalar, length_of_first_scalar, decode_first_scalar,
    valid_utf8, encode_utf8,
};

verus! {

/// The uppercase hexadecimal digit of `v`, for `v < 16`.
pub open spec fn hex_digit_spec(v: int) -> char {
    if v < 10 {
        (48 + v) as char
    } else {
        (55 + v) as char
    }
}

/// The two hexadecimal digits of `b`: high nibble first.
pub open spec fn hex_pair_spec(b: u8) -> (char, char) {
    (hex_digit_spec(b as int / 16), hex_digit_spec(b as int % 16))
}

pub fn hex_digit(v: u8) -> (c: char)
    requires
        v < 16,
    ensures
        c == hex_digit_spec(v as int),
{
    if v < 10 {
        (48 + v) as char
    } else {
        (55 + v) as char
    }
}

} // verus!

verus! {

/// The two hexadecimal digits of `b`, high nibble first.
pub fn hex_pair(b: u8) -> (r: (char, char))
    ensures
        r == hex_pair_spec(b),
{
    let hi = (b & 0xf0) >> 4;
    let lo = b & 0xf;
    assert(hi == b / 16 && lo == b % 16) by (bit_vector)
        requires
            hi == (b & 0xf0) >> 4,
            lo == b & 0xf,
    ;
    (hex_digit(hi), hex_digit(lo))
}

/// The Base64 digit of `v`, for `v < 64`.
pub open spec fn base64_digit_spec(v: int) -> char {
    if v < 26 {
        (65 + v) as char
    } else if v < 52 {
        (71 + v) as char
    } else if v < 62 {
        (v - 4) as char
    } else if v == 62 {
        '+'
    } else {
        '/'
    }
}

pub fn base64_digit(v: u8) -> (c: char)
    requires
        v < 64,
    ensures
        c == base64_digit_spec(v as int),
{
    if v < 26 {
        (65 + v) as char
    } else if v < 52 {
        (71 + v) as char
    } else if v < 62 {
        (v - 4) as char
    } else if v == 62 {
        '+'
    } else {
        '/'
    }
}

/// The four Base64 characters for one group of up to three bytes: `b1` and
/// `b2` stand for the bytes that were present, and an absent one turns its
/// character into `=`.
pub open spec fn base64_group_spec(b0: u8, b1: Option<u8>, b2: Option<u8>) -> Seq<char> {
    let n = b0 as int * 65536 + b1.unwrap_or(0) as int * 256 + b2.unwrap_or(0) as int;
    seq![
        base64_digit_spec(n / 262144 % 64),
        base64_digit_spec(n / 4096 % 64),
        if b1 is Some { base64_digit_spec(n / 64 % 64) } else { '=' },
        if b2 is Some { base64_digit_spec(n % 64) } else { '=' },
    ]
}

/// The Base64 characters of one group, computed as the 24-bit value is cut
/// into four sextets.
pub fn base64_group(b0: u8, b1: Option<u8>, b2: Option<u8>) -> (r: [char; 4])
    ensures
        r@ == base64_group_spec(b0, b1, b2),
{
    let x1: u8 = match b1 {
        Some(b) => b,
        None => 0,
    };
    let x2: u8 = match b2 {
        Some(b) => b,
        None => 0,
    };
    let i: u32 = (b0 as u32) << 16 | (x1 as u32) << 8 | (x2 as u32);
    let s0 = ((i >> 18) & 0x3f) as u8;
    let s1 = ((i >> 12) & 0x3f) as u8;
    let s2 = ((i >> 6) & 0x3f) as u8;
    let s3 = (i & 0x3f) as u8;
    proof {
        let n = b0 as int * 65536 + x1 as int * 256 + x2 as int;
        assert(i == b0 as u32 * 65536 + x1 as u32 * 256 + x2 as u32) by (bit_vector)
            requires
                i == (b0 as u32) << 16 | (x1 as u32) << 8 | (x2 as u32),
        ;
        assert(s0 == i / 262144 % 64 && s1 == i / 4096 % 64 && s2 == i / 64 % 64 && s3 == i % 64)
            by (bit_vector)
            requires
                s0 == ((i >> 18) & 0x3f) as u8,
                s1 == ((i >> 12) & 0x3f) as u8,
                s2 == ((i >> 6) & 0x3f) as u8,
                s3 == (i & 0x3f) as u8,
        ;
        assert(i as int == n);
    }
    let c0 = base64_digit(s0);
    let c1 = base64_digit(s1);
    let c2 = if b1.is_some() {
        base64_digit(s2)
    } else {
        '='
    };
    let c3 = if b2.is_some() {
        base64_digit(s3)
    } else {
        '='
    };
    let r = [c0, c1, c2, c3];
    assert(r@ =~= base64_group_spec(b0, b1, b2));
    r
}

/// `c` with an ASCII uppercase letter turned into its lowercase one; every
/// other character is left as it is.
pub open spec fn ascii_lower_spec(c: char) -> char {
    if 'A' <= c <= 'Z' {
        (c as u32 + 32) as char
    } else {
        c
    }
}

pub fn ascii_lower(c: char) -> (r: char)
    ensures
        r == ascii_lower_spec(c),
{
    if 'A' <= c && c <= 'Z' {
        let b = c as u8;
        assert(b == c as u32);
        (b + 32) as char
    } else {
        c
    }
}
/// `c` with an ASCII lowercase letter turned into its uppercase one; every
/// other character is left as it is.
pub open spec fn ascii_upper_spec(c: char) -> char {
    if 'a' <= c <= 'z' {
        (c as u32 - 32) as char
    } else {
        c
    }
}

pub fn ascii_upper(c: char) -> (r: char)
    ensures
        r == ascii_upper_spec(c),
{
    if 'a' <= c && c <= 'z' {
        let b = c as u8;
        assert(b == c as u32);
        (b - 32) as char
    } else {
        c
    }
}


/// The UTF-8 encoding of `c`: its bytes in the first `n` places of an array
/// of four.
pub fn encode_char(c: char) -> (r: ([u8; 4], usize))
    ensures
        1 <= r.1 <= 4,
        r.0@.subrange(0, r.1 as int) == vstd::utf8::encode_scalar(c as u32),
{
    let v = c as u32;
    proof {
        vstd::utf8::char_is_scalar(c);
    }
    if v <= 0x7f {
        let r = [(v & 0x7F) as u8, 0, 0, 0];
        assert(r@.subrange(0, 1) =~= vstd::utf8::encode_scalar(v));
        (r, 1)
    } else if v <= 0x7ff {
        let r = [0xC0 | ((v >> 6) & 0x1F) as u8, 0x80 | (v & 0x3F) as u8, 0, 0];
        assert(r@.subrange(0, 2) =~= vstd::utf8::encode_scalar(v));
        (r, 2)
    } else if v <= 0xffff {
        let r = [
            0xE0 | ((v >> 12) & 0x0F) as u8,
            0x80 | ((v >> 6) & 0x3F) as u8,
            0x80 | (v & 0x3F) as u8,
            0,
        ];
        assert(r@.subrange(0, 3) =~= vstd::utf8::encode_scalar(v));
        (r, 3)
    } else {
        let r = [
            0xF0 | ((v >> 18) & 0x7) as u8,
            0x80 | ((v >> 12) & 0x3F) as u8,
            0x80 | ((v >> 6) & 0x3F) as u8,
            0x80 | (v & 0x3F) as u8,
        ];
        assert(r@ =~= vstd::utf8::encode_scalar(v));
        (r, 4)
    }
}

} // verus!

verus! {

/// `bytes` is a proper beginning (possibly empty) of the UTF-8 encoding of
/// some character.
pub open spec fn char_start(bytes: Seq<u8>) -> bool {
    exists|c: char|
        bytes.len() < #[trigger] encode_scalar(c as u32).len() && bytes == encode_scalar(
            c as u32,
        ).subrange(0, bytes.len() as int)
}

/// `bytes` is valid UTF-8 followed by a proper beginning of one more character.
pub open spec fn utf8_prefix(bytes: Seq<u8>) -> bool
    decreases bytes.len(),
{
    if bytes.len() == 0 {
        true
    } else if valid_first_scalar(bytes) {
        utf8_prefix(pop_first_scalar(bytes))
    } else {
        char_start(bytes)
    }
}

/// Bytes below 0x80 are each a whole character.
pub proof fn lemma_ascii_utf8_prefix(bytes: Seq<u8>)
    requires
        forall|i: int| 0 <= i < bytes.len() ==> #[trigger] bytes[i] < 0x80,
    ensures
        utf8_prefix(bytes),
    decreases bytes.len(),
{
    if bytes.len() > 0 {
        assert(valid_first_scalar(bytes));
        let rest = pop_first_scalar(bytes);
        assert(rest =~= bytes.drop_first());
        lemma_ascii_utf8_prefix(rest);
    }
}

/// Every beginning of valid UTF-8 is valid UTF-8 followed by a proper
/// beginning of one more character.
pub proof fn lemma_valid_prefix(d: Seq<u8>, k: int)
    requires
        valid_utf8(d),
        0 <= k <= d.len(),
    ensures
        utf8_prefix(d.subrange(0, k)),
    decreases d.len(),
{
    let p = d.subrange(0, k);
    if k > 0 {
        let f = length_of_first_scalar(d);
        vstd::utf8::decode_utf8_first_scalar(d);
        let c = decode_first_scalar(d) as char;
        let e = encode_scalar(c as u32);
        lemma_encode_scalar_first(c);
        assert(e == d.subrange(0, f));
        if k >= f {
            let rest = d.subrange(f, k);
            assert(p =~= e + rest);
            lemma_first_scalar_extend(e, rest);
            assert(pop_first_scalar(e) =~= Seq::<u8>::empty());
            assert(pop_first_scalar(e) + rest =~= rest);
            let tail = pop_first_scalar(d);
            assert(tail.subrange(0, k - f) =~= rest);
            lemma_valid_prefix(tail, k - f);
        } else {
            assert(p =~= e.subrange(0, k));
            assert(char_start(p));
            lemma_char_start_not_scalar(p);
        }
    }
}

/// Whether a sequence begins with a well-formed character depends only on
/// that character's bytes.
pub proof fn lemma_first_scalar_extend(v: Seq<u8>, w: Seq<u8>)
    requires
        valid_first_scalar(v),
    ensures
        valid_first_scalar(v + w),
        length_of_first_scalar(v + w) == length_of_first_scalar(v),
        decode_first_scalar(v + w) == decode_first_scalar(v),
        pop_first_scalar(v + w) == pop_first_scalar(v) + w,
{
    let vw = v + w;
    assert(vw[0] == v[0]);
    assert(v.len() >= 2 ==> vw[1] == v[1]);
    assert(v.len() >= 3 ==> vw[2] == v[2]);
    assert(v.len() >= 4 ==> vw[3] == v[3]);
    assert(pop_first_scalar(vw) =~= pop_first_scalar(v) + w);
}

/// The encoding of a character is well-formed, and its first byte announces
/// its whole length.
pub proof fn lemma_encode_scalar_first(c: char)
    ensures
        valid_first_scalar(encode_scalar(c as u32)),
        length_of_first_scalar(encode_scalar(c as u32)) == encode_scalar(c as u32).len(),
        decode_first_scalar(encode_scalar(c as u32)) == c as u32,
        valid_utf8(encode_scalar(c as u32)),
        1 <= encode_scalar(c as u32).len() <= 4,
        encode_scalar(c as u32).len() == 1 ==> encode_scalar(c as u32)[0] == c as u32,
{
    let v = c as u32;
    if v <= 0x7F {
        assert(v & 0x7F == v) by (bit_vector)
            requires
                v <= 0x7F,
        ;
    }
    let cs = seq![c];
    vstd::utf8::encode_utf8_first_scalar(cs);
    vstd::utf8::encode_utf8_valid_utf8(cs);
    assert(encode_utf8(cs.drop_first()) =~= Seq::<u8>::empty());
    assert(encode_utf8(cs) =~= encode_scalar(c as u32));
}

/// A byte below `0x80` is on its own the encoding of the character of that value.
pub proof fn lemma_ascii_byte(b: u8)
    requires
        b < 0x80,
    ensures
        valid_utf8(seq![b]),
        encode_scalar((b as char) as u32) == seq![b],
        (b as char) as u32 == b,
{
    let c = b as char;
    let v = c as u32;
    assert(v == b);
    assert(v & 0x7F == v) by (bit_vector)
        requires
            v <= 0x7F,
    ;
    lemma_encode_scalar_first(c);
    assert(encode_scalar(v) =~= seq![b]);
}

/// A proper beginning of a character is not itself a well-formed character.
pub proof fn lemma_char_start_not_scalar(p: Seq<u8>)
    requires
        char_start(p),
        p.len() > 0,
    ensures
        !valid_first_scalar(p),
{
    let c = choose|c: char|
        p.len() < #[trigger] encode_scalar(c as u32).len() && p == encode_scalar(c as u32).subrange(
            0,
            p.len() as int,
        );
    let e = encode_scalar(c as u32);
    lemma_encode_scalar_first(c);
    assert(p[0] == e[0]);
}

/// A well-formed first character is, on its own, valid UTF-8.
pub proof fn lemma_first_scalar_valid(v: Seq<u8>)
    requires
        valid_first_scalar(v),
    ensures
        valid_utf8(v.subrange(0, length_of_first_scalar(v))),
        v.subrange(0, length_of_first_scalar(v)).len() == length_of_first_scalar(v),
{
    let t = v.subrange(0, length_of_first_scalar(v));
    assert(t[0] == v[0]);
    assert(t.len() >= 2 ==> t[1] == v[1]);
    assert(t.len() >= 3 ==> t[2] == v[2]);
    assert(t.len() >= 4 ==> t[3] == v[3]);
    assert(valid_first_scalar(t));
    assert(pop_first_scalar(t) =~= Seq::<u8>::empty());
    assert(valid_utf8(Seq::<u8>::empty()));
    assert(valid_utf8(t));
}

/// Valid UTF-8 followed by a proper beginning of a character satisfies `utf8_prefix`.
pub proof fn lemma_valid_then_start(v: Seq<u8>, p: Seq<u8>)
    requires
        valid_utf8(v),
        char_start(p),
    ensures
        utf8_prefix(v + p),
    decreases v.len(),
{
    if v.len() == 0 {
        assert(v + p =~= p);
        if p.len() > 0 {
            lemma_char_start_not_scalar(p);
        }
    } else {
        lemma_first_scalar_extend(v, p);
        let rest = pop_first_scalar(v);
        assert(rest.len() < v.len());
        lemma_valid_then_start(rest, p);
    }
}

/// The empty sequence is a proper beginning of a character.
pub proof fn lemma_empty_char_start()
    ensures
        char_start(Seq::<u8>::empty()),
{
    lemma_encode_scalar_first('a');
    assert(Seq::<u8>::empty() =~= encode_scalar('a' as u32).subrange(0, 0));
}

/// After valid UTF-8, `utf8_prefix` holds of the whole exactly when it holds
/// of what follows.
pub proof fn lemma_utf8_prefix_skip(v: Seq<u8>, b: Seq<u8>)
    requires
        valid_utf8(v),
        utf8_prefix(v + b),
    ensures
        utf8_prefix(b),
    decreases v.len(),
{
    if v.len() == 0 {
        assert(v + b =~= b);
    } else {
        lemma_first_scalar_extend(v, b);
        let rest = pop_first_scalar(v);
        lemma_utf8_prefix_skip(rest, b);
    }
}

/// Decoding the UTF-8 encoding of a character gives the character back, and
/// no shorter part of the encoding is valid UTF-8 on its own.
pub proof fn law_char_round_trip(c: char)
    ensures
        valid_utf8(encode_scalar(c as u32)),
        vstd::utf8::decode_utf8(encode_scalar(c as u32)) == seq![c],
        forall|j: int|
            1 <= j < encode_scalar(c as u32).len() ==> !valid_utf8(
                #[trigger] encode_scalar(c as u32).subrange(0, j),
            ),
{
    let e = encode_scalar(c as u32);
    lemma_encode_scalar_first(c);
    vstd::utf8::encode_utf8_decode_utf8(seq![c]);
    assert(encode_utf8(seq![c].drop_first()) =~= Seq::<u8>::empty());
    assert(encode_utf8(seq![c]) =~= e);
    assert forall|j: int| 1 <= j < e.len() implies !valid_utf8(#[trigger] e.subrange(0, j)) by {
        let p = e.subrange(0, j);
        assert(p[0] == e[0]);
        if valid_utf8(p) {
            assert(valid_first_scalar(p));
        }
    }
}

/// UTF-8 is prefix-free: when the encodings of two characters both begin a
/// byte sequence, the characters are the same.
pub proof fn law_encodings_prefix_free(c: char, d: char, s: Seq<u8>)
    requires
        encode_scalar(c as u32).len() <= s.len(),
        encode_scalar(d as u32).len() <= s.len(),
        s.subrange(0, encode_scalar(c as u32).len() as int) == encode_scalar(c as u32),
        s.subrange(0, encode_scalar(d as u32).len() as int) == encode_scalar(d as u32),
    ensures
        c == d,
{
    let ec = encode_scalar(c as u32);
    let ed = encode_scalar(d as u32);
    lemma_encode_scalar_first(c);
    lemma_encode_scalar_first(d);
    assert(ec[0] == s[0] && ed[0] == s[0]);
    assert(ec.len() >= 2 ==> ec[1] == s[1]);
    assert(ed.len() >= 2 ==> ed[1] == s[1]);
    assert(ec.len() >= 3 ==> ec[2] == s[2]);
    assert(ed.len() >= 3 ==> ed[2] == s[2]);
    assert(ec.len() >= 4 ==> ec[3] == s[3]);
    assert(ed.len() >= 4 ==> ed[3] == s[3]);
    assert(ec.len() == ed.len());
    assert(ec =~= ed);
    vstd::utf8::char_u32_cast(c, decode_first_scalar(ec));
    vstd::utf8::char_u32_cast(d, decode_first_scalar(ed));
}

} // verus!

verus! {

/// The number a hexadecimal digit stands for, as a reader of hexadecimal
/// reads it: `0`-`9` stand for 0 to 9, `A`-`F` for 10 to 15; anything else
/// for no number (-1).
pub open spec fn hex_value(c: char) -> int {
    if '0' <= c <= '9' {
        c as int - '0' as int
    } else if 'A' <= c <= 'F' {
        c as int - 'A' as int + 10
    } else {
        -1
    }
}

/// Each number below 16 is written as a digit that reads back as that
/// number, so different numbers get different digits.
pub proof fn law_hex_digit_reads_back(v: int)
    requires
        0 <= v < 16,
    ensures
        hex_value(hex_digit_spec(v)) == v,
        ('0' <= hex_digit_spec(v) <= '9') || ('A' <= hex_digit_spec(v) <= 'F'),
{
}

/// The two digits written for a byte, read as a base-16 number, give the
/// byte back.
pub proof fn law_hex_pair_reads_back(b: u8)
    ensures
        hex_value(hex_pair_spec(b).0) * 16 + hex_value(hex_pair_spec(b).1) == b,
{
    law_hex_digit_reads_back(b as int / 16);
    law_hex_digit_reads_back(b as int % 16);
}

/// The number a Base64 digit stands for in the RFC 4648 alphabet: `A`-`Z`
/// for 0 to 25, `a`-`z` for 26 to 51, `0`-`9` for 52 to 61, `+` for 62 and
/// `/` for 63; anything else (`=` among them) for no number (-1).
pub open spec fn base64_value(c: char) -> int {
    if 'A' <= c <= 'Z' {
        c as int - 'A' as int
    } else if 'a' <= c <= 'z' {
        c as int - 'a' as int + 26
    } else if '0' <= c <= '9' {
        c as int - '0' as int + 52
    } else if c == '+' {
        62
    } else if c == '/' {
        63
    } else {
        -1
    }
}

/// Each sextet is written as the digit of the Base64 alphabet that reads
/// back as it, so different sextets get different digits, none of them `=`.
pub proof fn law_base64_digit_reads_back(v: int)
    requires
        0 <= v < 64,
    ensures
        base64_value(base64_digit_spec(v)) == v,
        base64_digit_spec(v) != '=',
{
}

/// A 24-bit number is its four sextets, high first.
proof fn lemma_sextets(n: int)
    requires
        0 <= n < 0x1000000,
    ensures
        n == (n / 262144 % 64) * 262144 + (n / 4096 % 64) * 4096 + (n / 64 % 64) * 64 + n % 64,
        n % 65536 == 0 ==> n / 64 % 64 == 0 && n % 64 == 0,
        n % 256 == 0 ==> n % 64 == 0,
{
    let x = n as u32;
    assert(x == (x / 262144 % 64) * 262144 + (x / 4096 % 64) * 4096 + (x / 64 % 64) * 64 + x % 64)
        by (bit_vector)
        requires
            x < 0x1000000,
    ;
    assert(x % 65536 == 0 ==> x / 64 % 64 == 0 && x % 64 == 0) by (bit_vector);
    assert(x % 256 == 0 ==> x % 64 == 0) by (bit_vector);
}

/// The characters written for a group of bytes read back as those bytes:
/// the values of its digits, as sextets high first, make the bytes as one
/// 24-bit number, high first; a missing byte is written as `=` and counts as
/// zero.
pub proof fn law_base64_group_reads_back(b0: u8, b1: Option<u8>, b2: Option<u8>)
    ensures
        ({
            let g = base64_group_spec(b0, b1, b2);
            &&& b1 is None ==> g[2] == '='
            &&& b2 is None ==> g[3] == '='
            &&& (b1 is Some && b2 is Some) ==> base64_value(g[0]) * 262144 + base64_value(g[1]) * 4096
                + base64_value(g[2]) * 64 + base64_value(g[3]) == b0 * 65536 + b1->0 * 256 + b2->0
            &&& (b1 is Some && b2 is None) ==> base64_value(g[0]) * 262144 + base64_value(g[1]) * 4096
                + base64_value(g[2]) * 64 == b0 * 65536 + b1->0 * 256
            &&& (b1 is None && b2 is None) ==> base64_value(g[0]) * 262144 + base64_value(g[1]) * 4096
                == b0 * 65536
        }),
{
    let n = b0 as int * 65536 + b1.unwrap_or(0) as int * 256 + b2.unwrap_or(0) as int;
    lemma_sextets(n);
    law_base64_digit_reads_back(n / 262144 % 64);
    law_base64_digit_reads_back(n / 4096 % 64);
    law_base64_digit_reads_back(n / 64 % 64);
    law_base64_digit_reads_back(n % 64);
    if b2 is None {
        assert(n == b0 as int * 65536 + b1.unwrap_or(0) as int * 256);
        assert(n % 256 == 0) by (nonlinear_arith)
            requires
                n == b0 as int * 65536 + b1.unwrap_or(0) as int * 256,
        ;
        if b1 is None {
            assert(n % 65536 == 0) by (nonlinear_arith)
                requires
                    n == b0 as int * 65536,
            ;
        }
    }
}

/// ASCII case folding: lowering leaves no ASCII capital and changes nothing
/// else, raising leaves no ASCII small letter and changes nothing else, each
/// undoes the other on the letters it changes, and ASCII stays ASCII.
pub proof fn law_ascii_case(c: char)
    ensures
        !('A' <= ascii_lower_spec(c) <= 'Z'),
        !('a' <= ascii_upper_spec(c) <= 'z'),
        !('A' <= c <= 'Z') ==> ascii_lower_spec(c) == c,
        !('a' <= c <= 'z') ==> ascii_upper_spec(c) == c,
        'A' <= c <= 'Z' ==> 'a' <= ascii_lower_spec(c) <= 'z' && ascii_upper_spec(ascii_lower_spec(c)) == c,
        'a' <= c <= 'z' ==> 'A' <= ascii_upper_spec(c) <= 'Z' && ascii_lower_spec(ascii_upper_spec(c)) == c,
        (c as u32) < 0x80 ==> (ascii_lower_spec(c) as u32) < 0x80 && (ascii_upper_spec(c) as u32) < 0x80,
{
}

} // verus!
