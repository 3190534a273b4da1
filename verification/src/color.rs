//! Colours, and their `#rrggbb` notation.

use vstd::prelude::*;
use vstd::string::*;
use vstd::utf8::*;

use crate::text::{hex_digit, hex_fixed, hex_value, hex_value_of, push_hex};

verus! {

/// Red, green and blue.
#[derive(Debug, Clone, Copy, PartialEq, Eq, Structural)]
pub struct Rgb(pub u8, pub u8, pub u8);

/// Number of `#` characters at the start of `b`.
pub open spec fn hashes(b: Seq<u8>) -> nat
    decreases b.len(),
{
    if b.len() > 0 && b[0] == 0x23 {
        1 + hashes(b.drop_first())
    } else {
        0
    }
}

/// The number that two characters write in base sixteen, if they write one: two
/// digits, or a plus sign and one digit.
pub open spec fn hex_pair(b0: u8, b1: u8) -> Option<int> {
    if b0 == 0x2b {
        hex_value(b1)
    } else {
        match (hex_value(b0), hex_value(b1)) {
            (Some(h), Some(l)) => Some(h * 16 + l),
            _ => None,
        }
    }
}

/// The pair of characters at `i`, or `default` where it is no number.
pub open spec fn pair_or(b: Seq<u8>, i: int, default: u8) -> u8 {
    match hex_pair(b[i], b[i + 1]) {
        Some(v) => v as u8,
        None => default,
    }
}

/// The text can be cut into three pairs of bytes after its leading `#`
/// characters, none of them in the middle of a character.
pub open spec fn has_three_pairs(s: Seq<char>) -> bool {
    let b = encode_utf8(s);
    let k = hashes(b) as int;
    &&& k + 6 <= b.len()
    &&& is_char_boundary(b, k + 2)
    &&& is_char_boundary(b, k + 4)
    &&& is_char_boundary(b, k + 6)
}

fn pair_or_of(b: &[u8], i: usize, default: u8) -> (r: u8)
    requires
        i + 1 < b.len(),
    ensures
        r == pair_or(b@, i as int, default),
{
    if b[i] == 0x2b {
        match hex_value_of(b[i + 1]) {
            Some(v) => v,
            None => default,
        }
    } else {
        match (hex_value_of(b[i]), hex_value_of(b[i + 1])) {
            (Some(h), Some(l)) => h * 16 + l,
            _ => default,
        }
    }
}

impl Rgb {
    /// The colour that `s` writes in hexadecimal. A component that is no number
    /// falls back to that of `#00ff41`.
    pub open spec fn spec_from_hex(s: Seq<char>) -> Rgb {
        let b = encode_utf8(s);
        let k = hashes(b) as int;
        Rgb(pair_or(b, k, 0), pair_or(b, k + 2, 255), pair_or(b, k + 4, 65))
    }

    /// The colour that `s` writes in hexadecimal. A component that is no number
    /// falls back to that of `#00ff41`.
    pub fn from_hex(s: &str) -> (r: Self)
        requires
            has_three_pairs(s@),
        ensures
            r == Self::spec_from_hex(s@),
    {
        let b: &[u8] = s.as_bytes();
        let mut k: usize = 0;
        assert(b@.skip(0) =~= b@);
        while k < b.len() && b[k] == 0x23
            invariant
                0 <= k <= b@.len(),
                hashes(b@) == k + hashes(b@.skip(k as int)),
            decreases b@.len() - k,
        {
            assert(b@.skip(k as int).drop_first() =~= b@.skip(k + 1));
            k = k + 1;
        }
        assert(hashes(b@.skip(k as int)) == 0);
        Rgb(pair_or_of(b, k, 0), pair_or_of(b, k + 2, 255), pair_or_of(b, k + 4, 65))
    }

    /// `#rrggbb` notation of the colour.
    pub open spec fn spec_to_hex(self) -> Seq<char> {
        seq!['#'] + hex_fixed(self.0 as nat, 2) + hex_fixed(self.1 as nat, 2) + hex_fixed(
            self.2 as nat,
            2,
        )
    }

    /// `#rrggbb` notation of the colour.
    pub fn to_hex(self) -> (r: String)
        ensures
            r@ == self.spec_to_hex(),
    {
        let mut s: String = String::new();
        s.push('#');
        push_hex(&mut s, self.0 as u64, 2);
        push_hex(&mut s, self.1 as u64, 2);
        push_hex(&mut s, self.2 as u64, 2);
        assert(s@ =~= self.spec_to_hex());
        s
    }
}

proof fn lemma_hex_two(n: u8)
    ensures
        hex_fixed(n as nat, 2) =~= seq![hex_digit(n as int / 16), hex_digit(n as int % 16)],
{
    reveal_with_fuel(hex_fixed, 3);
}

/// Reading back the notation of a colour gives the colour.
pub proof fn law_hex_round_trip(c: Rgb)
    ensures
        has_three_pairs(c.spec_to_hex()),
        Rgb::spec_from_hex(c.spec_to_hex()) == c,
{
    let s = c.spec_to_hex();
    lemma_hex_two(c.0);
    lemma_hex_two(c.1);
    lemma_hex_two(c.2);
    assert(s =~= seq![
        '#',
        hex_digit(c.0 as int / 16),
        hex_digit(c.0 as int % 16),
        hex_digit(c.1 as int / 16),
        hex_digit(c.1 as int % 16),
        hex_digit(c.2 as int / 16),
        hex_digit(c.2 as int % 16),
    ]);
    assert(is_ascii_chars(s));
    is_ascii_chars_encode_utf8(s);
    let b = encode_utf8(s);
    assert(b.len() == 7);
    assert(b[0] == 0x23);
    assert(b.drop_first()[0] == b[1]);
    assert(hashes(b.drop_first()) == 0);
    assert(hashes(b) == 1);
    encode_utf8_valid_utf8(s);
    is_char_boundary_start_end_of_seq(b);
    utf8_byte_ranges_bitwise(b[3]);
    utf8_byte_ranges_bitwise(b[5]);
    is_char_boundary_iff_not_is_continuation_byte(b, 3);
    is_char_boundary_iff_not_is_continuation_byte(b, 5);
}

} // verus!
