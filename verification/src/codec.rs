//! Percent-encoding codec.
//!
//! The gateway delivers some path and query fragments already percent-decoded;
//! before they can be pasted back into a URI they must be re-escaped to the
//! RFC 3986 form. The encoder escapes exactly the bytes that are unsafe in a
//! path component (controls, space, the listed specials, every non-ASCII
//! byte); query components additionally escape `/`.

use vstd::prelude::*;

verus! {

/// True of the bytes that a path component must percent-escape:
/// ASCII controls (including DEL), every non-ASCII byte, and the
/// specials space `"` `#` `%` `+` `:` `<` `>` `?` `@` `[` `\` `]` `^`
/// backtick `{` `|` `}`.
pub open spec fn path_byte_escaped(b: u8) -> bool {
    ||| b < 0x20
    ||| b == 0x7f
    ||| b >= 0x80
    ||| b == 0x20
    ||| b == 0x22
    ||| b == 0x23
    ||| b == 0x25
    ||| b == 0x2b
    ||| b == 0x3a
    ||| b == 0x3c
    ||| b == 0x3e
    ||| b == 0x3f
    ||| b == 0x40
    ||| b == 0x5b
    ||| b == 0x5c
    ||| b == 0x5d
    ||| b == 0x5e
    ||| b == 0x60
    ||| b == 0x7b
    ||| b == 0x7c
    ||| b == 0x7d
}

/// A query component escapes the path set and `/` as well.
pub open spec fn byte_escaped(b: u8, query: bool) -> bool {
    path_byte_escaped(b) || (query && b == 0x2f)
}

/// The upper-case hexadecimal digit for a value below 16.
pub open spec fn hex_digit(n: u8) -> u8
    recommends
        n < 16,
{
    if n < 10 {
        (0x30 + n) as u8
    } else {
        (0x41 + (n - 10)) as u8
    }
}

/// How one byte is emitted: either itself, or `%` followed by two
/// upper-case hexadecimal digits.
pub open spec fn encoded_byte(b: u8, query: bool) -> Seq<u8> {
    if byte_escaped(b, query) {
        seq![0x25u8, hex_digit(b / 16), hex_digit(b % 16)]
    } else {
        seq![b]
    }
}

/// The percent-encoding of a whole byte sequence.
pub open spec fn percent_encoded(s: Seq<u8>, query: bool) -> Seq<u8>
    decreases s.len(),
{
    if s.len() == 0 {
        Seq::empty()
    } else {
        encoded_byte(s[0], query) + percent_encoded(s.skip(1), query)
    }
}

/// True of ASCII hexadecimal digits, either case.
pub open spec fn is_hex(b: u8) -> bool {
    (0x30 <= b && b <= 0x39) || (0x41 <= b && b <= 0x46) || (0x61 <= b && b <= 0x66)
}

/// The value of an ASCII hexadecimal digit.
pub open spec fn hex_value(b: u8) -> u8
    recommends
        is_hex(b),
{
    if 0x30 <= b && b <= 0x39 {
        (b - 0x30) as u8
    } else if 0x41 <= b && b <= 0x46 {
        (b - 0x41 + 10) as u8
    } else {
        (b - 0x61 + 10) as u8
    }
}

/// Percent-decoding: each `%` followed by two hexadecimal digits becomes
/// one byte; everything else passes through.
pub open spec fn percent_decoded(s: Seq<u8>) -> Seq<u8>
    decreases s.len(),
{
    if s.len() == 0 {
        Seq::empty()
    } else if s[0] == 0x25 && s.len() >= 3 && is_hex(s[1]) && is_hex(s[2]) {
        seq![(hex_value(s[1]) * 16 + hex_value(s[2])) as u8] + percent_decoded(s.skip(3))
    } else {
        seq![s[0]] + percent_decoded(s.skip(1))
    }
}

/// Appending one byte to the input appends its encoding to the output.
proof fn lemma_encoded_snoc(s: Seq<u8>, b: u8, query: bool)
    ensures
        percent_encoded(s.push(b), query) == percent_encoded(s, query) + encoded_byte(b, query),
    decreases s.len(),
{
    if s.len() == 0 {
        assert(s.push(b).skip(1) =~= Seq::<u8>::empty());
        assert(s.push(b)[0] == b);
        assert(percent_encoded(Seq::<u8>::empty(), query) =~= Seq::<u8>::empty());
        assert(percent_encoded(s, query) =~= Seq::<u8>::empty());
        assert(percent_encoded(s.push(b), query) =~= encoded_byte(b, query) + Seq::<u8>::empty());
        assert(encoded_byte(b, query) + Seq::<u8>::empty() =~= encoded_byte(b, query));
        assert(percent_encoded(s, query) + encoded_byte(b, query) =~= encoded_byte(b, query));
    } else {
        assert(s.push(b).skip(1) =~= s.skip(1).push(b));
        lemma_encoded_snoc(s.skip(1), b, query);
        assert(percent_encoded(s.push(b), query) =~= percent_encoded(s, query) + encoded_byte(
            b,
            query,
        ));
    }
}

fn is_byte_escaped(b: u8, query: bool) -> (r: bool)
    ensures
        r == byte_escaped(b, query),
{
    b < 0x20 || b == 0x7f || b >= 0x80 || b == 0x20 || b == 0x22 || b == 0x23 || b == 0x25 || b
        == 0x2b || b == 0x3a || b == 0x3c || b == 0x3e || b == 0x3f || b == 0x40 || b == 0x5b || b
        == 0x5c || b == 0x5d || b == 0x5e || b == 0x60 || b == 0x7b || b == 0x7c || b == 0x7d || (
    query && b == 0x2f)
}

fn hex_digit_of(n: u8) -> (r: u8)
    requires
        n < 16,
    ensures
        r == hex_digit(n),
{
    if n < 10 {
        0x30 + n
    } else {
        0x41 + (n - 10)
    }
}

/// Percent-encode a decoded path (`query == false`) or query component
/// (`query == true`) back to its RFC 3986 wire form.
pub fn percent_encode(input: &Vec<u8>, query: bool) -> (r: Vec<u8>)
    ensures
        r@ == percent_encoded(input@, query),
{
    let mut r: Vec<u8> = Vec::new();
    let mut i: usize = 0;
    while i < input.len()
        invariant
            i <= input.len(),
            r@ == percent_encoded(input@.subrange(0, i as int), query),
        decreases input.len() - i,
    {
        let b = input[i];
        if is_byte_escaped(b, query) {
            r.push(0x25);
            r.push(hex_digit_of(b / 16));
            r.push(hex_digit_of(b % 16));
        } else {
            r.push(b);
        }
        proof {
            assert(input@.subrange(0, i as int + 1) =~= input@.subrange(0, i as int).push(
                input@[i as int],
            ));
            lemma_encoded_snoc(input@.subrange(0, i as int), input@[i as int], query);
        }
        i = i + 1;
    }
    proof {
        assert(input@.subrange(0, input@.len() as int) =~= input@);
    }
    r
}

fn is_hex_byte(b: u8) -> (r: bool)
    ensures
        r == is_hex(b),
{
    (0x30 <= b && b <= 0x39) || (0x41 <= b && b <= 0x46) || (0x61 <= b && b <= 0x66)
}

fn hex_value_of(b: u8) -> (r: u8)
    requires
        is_hex(b),
    ensures
        r == hex_value(b),
{
    if 0x30 <= b && b <= 0x39 {
        b - 0x30
    } else if 0x41 <= b && b <= 0x46 {
        b - 0x41 + 10
    } else {
        b - 0x61 + 10
    }
}

/// Percent-decode a byte sequence: the inverse used to state that the
/// encoder never double-escapes.
pub fn percent_decode(input: &Vec<u8>) -> (r: Vec<u8>)
    ensures
        r@ == percent_decoded(input@),
{
    let mut r: Vec<u8> = Vec::new();
    let mut i: usize = 0;
    proof {
        assert(input@.skip(0) =~= input@);
    }
    while i < input.len()
        invariant
            i <= input.len(),
            r@ + percent_decoded(input@.skip(i as int)) == percent_decoded(input@),
        decreases input.len() - i,
    {
        let b = input[i];
        if b == 0x25 && input.len() - i >= 3 && is_hex_byte(input[i + 1]) && is_hex_byte(
            input[i + 2],
        ) {
            let hi = hex_value_of(input[i + 1]);
            let lo = hex_value_of(input[i + 2]);
            r.push(hi * 16 + lo);
            proof {
                assert(input@.skip(i as int).skip(3) =~= input@.skip(i as int + 3));
            }
            i = i + 3;
        } else {
            r.push(b);
            proof {
                assert(input@.skip(i as int).skip(1) =~= input@.skip(i as int + 1));
            }
            i = i + 1;
        }
    }
    proof {
        assert(input@.skip(input@.len() as int) =~= Seq::<u8>::empty());
        assert(r@ + Seq::<u8>::empty() =~= r@);
    }
    r
}

/// The value of an emitted hexadecimal digit is the value it encodes.
proof fn lemma_hex_digit_value(n: u8)
    requires
        n < 16,
    ensures
        is_hex(hex_digit(n)),
        hex_value(hex_digit(n)) == n,
{
}

/// Percent-encoding round trip: decoding the encoder's output restores the
/// original bytes exactly, for every input and for both escape sets, so the
/// encoder never double-escapes and loses nothing.
pub proof fn lemma_percent_round_trip(s: Seq<u8>, query: bool)
    ensures
        percent_decoded(percent_encoded(s, query)) == s,
    decreases s.len(),
{
    if s.len() == 0 {
    } else {
        let e = percent_encoded(s, query);
        let rest = percent_encoded(s.skip(1), query);
        lemma_percent_round_trip(s.skip(1), query);
        if byte_escaped(s[0], query) {
            lemma_hex_digit_value(s[0] / 16);
            lemma_hex_digit_value(s[0] % 16);
            assert(e.skip(3) =~= rest);
            assert(e[0] == 0x25 && e.len() >= 3 && is_hex(e[1]) && is_hex(e[2]));
            assert(hex_value(e[1]) * 16 + hex_value(e[2]) == s[0]) by {
                assert(hex_value(e[1]) == s[0] / 16 && hex_value(e[2]) == s[0] % 16);
            }
            assert(percent_decoded(e) =~= seq![s[0]] + percent_decoded(rest));
            assert(seq![s[0]] + s.skip(1) =~= s);
        } else {
            assert(s[0] != 0x25);
            assert(e.skip(1) =~= rest);
            assert(percent_decoded(e) =~= seq![s[0]] + percent_decoded(rest));
            assert(seq![s[0]] + s.skip(1) =~= s);
        }
    }
}

} // verus!
