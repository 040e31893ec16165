//! The element types the codecs can carry.
//!
//! A [`Scalar`] renders to canonical decimal text and parses back from it.
//! The codec logic is generic over this trait and never special-cases a
//! concrete numeric type; the impls here cover the common integer widths.

use vstd::prelude::*;

use crate::num_text::{
    all_digits, digits_to_u128, int_text, is_digit, lemma_digit_not_sign, lemma_digits_val_nonneg,
    lemma_uint_text, scalar_char, scalar_text, signed_value, uint_string, uint_text,
    unsigned_value,
};

verus! {

/// A value with a canonical decimal rendering and a parse that undoes it.
pub trait Scalar: Sized + Copy {
    /// The canonical rendering of the value.
    spec fn text(self) -> Seq<char>;

    /// The value, if any, that parsing yields for `s`.
    spec fn accepts(s: Seq<char>) -> Option<Self>;

    /// The rendering is non-empty, consists of digits and `-` only, and
    /// parses back to the value it came from.
    proof fn lemma_text_wf(self)
        ensures
            scalar_text(self.text()),
            Self::accepts(self.text()) == Some(self),
    ;

    /// Render the value.
    fn to_text(&self) -> (r: String)
        ensures
            r@ == self.text(),
    ;

    /// Parse a value, returning `None` on any malformed or out-of-range text.
    fn from_text(s: &str) -> (r: Option<Self>)
        ensures
            r == Self::accepts(s@),
    ;
}

/// Parse per `unsigned_value`, rejecting values above `max`.
fn parse_unsigned(s: &str, max: u128) -> (r: Option<u128>)
    requires
        max <= u64::MAX as u128,
    ensures
        match unsigned_value(s@) {
            Some(v) => v >= 0 && if v <= max as int {
                r == Some(v as u128)
            } else {
                r is None
            },
            None => r is None,
        },
{
    let n = s.unicode_len();
    if n == 0 {
        return None;
    }
    let body: &str = if s.get_char(0) == '+' {
        s.substring_char(1, n)
    } else {
        s
    };
    proof {
        if s@[0] == '+' {
            assert(body@ =~= s@.drop_first());
        }
        if unsigned_value(s@) is Some {
            assert(all_digits(body@));
            lemma_digits_val_nonneg(body@);
        }
    }
    digits_to_u128(body, max)
}

/// Parse per `signed_value`, rejecting values below `-neg_mag` or above `max`.
fn parse_signed(s: &str, neg_mag: u128, max: u128) -> (r: Option<i128>)
    requires
        neg_mag <= i64::MAX as u128 + 1,
        max <= i64::MAX as u128,
    ensures
        match signed_value(s@) {
            Some(v) => if -(neg_mag as int) <= v <= max as int {
                r == Some(v as i128)
            } else {
                r is None
            },
            None => r is None,
        },
{
    let n = s.unicode_len();
    if n == 0 {
        return None;
    }
    if s.get_char(0) == '-' {
        let body = s.substring_char(1, n);
        proof {
            assert(body@ =~= s@.drop_first());
            if signed_value(s@) is Some {
                assert(all_digits(body@));
                lemma_digits_val_nonneg(body@);
            }
        }
        match digits_to_u128(body, neg_mag) {
            Some(v) => Some(0i128 - (v as i128)),
            None => None,
        }
    } else {
        match parse_unsigned(s, max) {
            Some(v) => Some(v as i128),
            None => None,
        }
    }
}

/// Render a sign-magnitude integer.
fn signed_string(neg: bool, mag: u64) -> (r: String)
    ensures
        r@ == if neg {
            seq!['-'] + uint_text(mag as nat)
        } else {
            uint_text(mag as nat)
        },
{
    if neg {
        let mut r = "-".to_owned();
        let d = uint_string(mag);
        r.append(d.as_str());
        proof {
            reveal_strlit("-");
            assert("-"@ =~= seq!['-']);
        }
        r
    } else {
        uint_string(mag)
    }
}

/// The rendering of a non-negative integer is well formed and parses back
/// to the integer under the unsigned and the signed rule alike.
proof fn lemma_uint_text_accepts(n: nat)
    ensures
        scalar_text(uint_text(n)),
        unsigned_value(uint_text(n)) == Some(n as int),
        signed_value(uint_text(n)) == Some(n as int),
{
    lemma_uint_text(n);
    let s = uint_text(n);
    assert forall|i: int| 0 <= i < s.len() implies scalar_char(#[trigger] s[i]) by {
        assert(is_digit(s[i]));
    }
    assert(is_digit(s[0]));
    lemma_digit_not_sign(s[0]);
}

/// The rendering of an integer is well formed and parses back to the
/// integer under the signed rule.
proof fn lemma_int_text_accepts(n: int)
    ensures
        scalar_text(int_text(n)),
        signed_value(int_text(n)) == Some(n),
{
    if n >= 0 {
        lemma_uint_text_accepts(n as nat);
    } else {
        lemma_uint_text((-n) as nat);
        let t = uint_text((-n) as nat);
        let s = int_text(n);
        assert(s == seq!['-'] + t);
        assert(s[0] == '-');
        assert(s.drop_first() =~= t);
        assert forall|i: int| 0 <= i < s.len() implies scalar_char(#[trigger] s[i]) by {
            if i > 0 {
                assert(s[i] == t[i - 1]);
                assert(is_digit(t[i - 1]));
            }
        }
    }
}

impl Scalar for u8 {
    open spec fn text(self) -> Seq<char> {
        uint_text(self as nat)
    }

    open spec fn accepts(s: Seq<char>) -> Option<u8> {
        match unsigned_value(s) {
            Some(v) => if v <= u8::MAX as int {
                Some(v as u8)
            } else {
                None
            },
            None => None,
        }
    }

    proof fn lemma_text_wf(self) {
        lemma_uint_text_accepts(self as nat);
    }

    fn to_text(&self) -> (r: String) {
        uint_string(*self as u64)
    }

    fn from_text(s: &str) -> (r: Option<u8>) {
        match parse_unsigned(s, 255) {
            Some(v) => Some(v as u8),
            None => None,
        }
    }
}

impl Scalar for u16 {
    open spec fn text(self) -> Seq<char> {
        uint_text(self as nat)
    }

    open spec fn accepts(s: Seq<char>) -> Option<u16> {
        match unsigned_value(s) {
            Some(v) => if v <= u16::MAX as int {
                Some(v as u16)
            } else {
                None
            },
            None => None,
        }
    }

    proof fn lemma_text_wf(self) {
        lemma_uint_text_accepts(self as nat);
    }

    fn to_text(&self) -> (r: String) {
        uint_string(*self as u64)
    }

    fn from_text(s: &str) -> (r: Option<u16>) {
        match parse_unsigned(s, 65535) {
            Some(v) => Some(v as u16),
            None => None,
        }
    }
}

impl Scalar for u32 {
    open spec fn text(self) -> Seq<char> {
        uint_text(self as nat)
    }

    open spec fn accepts(s: Seq<char>) -> Option<u32> {
        match unsigned_value(s) {
            Some(v) => if v <= u32::MAX as int {
                Some(v as u32)
            } else {
                None
            },
            None => None,
        }
    }

    proof fn lemma_text_wf(self) {
        lemma_uint_text_accepts(self as nat);
    }

    fn to_text(&self) -> (r: String) {
        uint_string(*self as u64)
    }

    fn from_text(s: &str) -> (r: Option<u32>) {
        match parse_unsigned(s, 4294967295) {
            Some(v) => Some(v as u32),
            None => None,
        }
    }
}

impl Scalar for u64 {
    open spec fn text(self) -> Seq<char> {
        uint_text(self as nat)
    }

    open spec fn accepts(s: Seq<char>) -> Option<u64> {
        match unsigned_value(s) {
            Some(v) => if v <= u64::MAX as int {
                Some(v as u64)
            } else {
                None
            },
            None => None,
        }
    }

    proof fn lemma_text_wf(self) {
        lemma_uint_text_accepts(self as nat);
    }

    fn to_text(&self) -> (r: String) {
        uint_string(*self)
    }

    fn from_text(s: &str) -> (r: Option<u64>) {
        match parse_unsigned(s, 18446744073709551615) {
            Some(v) => Some(v as u64),
            None => None,
        }
    }
}

impl Scalar for i64 {
    open spec fn text(self) -> Seq<char> {
        int_text(self as int)
    }

    open spec fn accepts(s: Seq<char>) -> Option<i64> {
        match signed_value(s) {
            Some(v) => if i64::MIN as int <= v <= i64::MAX as int {
                Some(v as i64)
            } else {
                None
            },
            None => None,
        }
    }

    proof fn lemma_text_wf(self) {
        lemma_int_text_accepts(self as int);
    }

    fn to_text(&self) -> (r: String) {
        let v = *self;
        if v >= 0 {
            uint_string(v as u64)
        } else {
            let mag = (0i128 - (v as i128)) as u64;
            signed_string(true, mag)
        }
    }

    fn from_text(s: &str) -> (r: Option<i64>) {
        match parse_signed(s, 9223372036854775808, 9223372036854775807) {
            Some(v) => Some(v as i64),
            None => None,
        }
    }
}

impl Scalar for i32 {
    open spec fn text(self) -> Seq<char> {
        int_text(self as int)
    }

    open spec fn accepts(s: Seq<char>) -> Option<i32> {
        match signed_value(s) {
            Some(v) => if i32::MIN as int <= v <= i32::MAX as int {
                Some(v as i32)
            } else {
                None
            },
            None => None,
        }
    }

    proof fn lemma_text_wf(self) {
        lemma_int_text_accepts(self as int);
    }

    fn to_text(&self) -> (r: String) {
        let v = *self;
        if v >= 0 {
            uint_string(v as u64)
        } else {
            let mag = (0i64 - (v as i64)) as u64;
            signed_string(true, mag)
        }
    }

    fn from_text(s: &str) -> (r: Option<i32>) {
        match parse_signed(s, 2147483648, 2147483647) {
            Some(v) => Some(v as i32),
            None => None,
        }
    }
}

} // verus!
