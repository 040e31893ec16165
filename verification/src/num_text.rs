//! Decimal text for the numeric element types.
//!
//! `uint_text` / `int_text` give the canonical rendering (no leading zeros,
//! a leading `-` for negative values). `unsigned_value` / `signed_value` say
//! which strings parse and to what integer: one or more decimal digits after
//! an optional sign, with no other characters.

use vstd::prelude::*;

verus! {

/// Is `c` a decimal digit?
pub open spec fn is_digit(c: char) -> bool {
    48 <= c as int <= 57
}

/// The value of a decimal digit.
pub open spec fn digit_val(c: char) -> int {
    c as int - 48
}

/// The digit character for a value in `0..=9`.
pub open spec fn digit_char(d: int) -> char {
    if d == 0 {
        '0'
    } else if d == 1 {
        '1'
    } else if d == 2 {
        '2'
    } else if d == 3 {
        '3'
    } else if d == 4 {
        '4'
    } else if d == 5 {
        '5'
    } else if d == 6 {
        '6'
    } else if d == 7 {
        '7'
    } else if d == 8 {
        '8'
    } else {
        '9'
    }
}

/// The canonical decimal rendering of a non-negative integer.
pub open spec fn uint_text(n: nat) -> Seq<char>
    decreases n,
{
    if n < 10 {
        seq![digit_char(n as int)]
    } else {
        uint_text(n / 10) + seq![digit_char((n % 10) as int)]
    }
}

/// The canonical decimal rendering of an integer, signed.
pub open spec fn int_text(n: int) -> Seq<char> {
    if n >= 0 {
        uint_text(n as nat)
    } else {
        seq!['-'] + uint_text((-n) as nat)
    }
}

/// Does `s` consist of decimal digits only?
pub open spec fn all_digits(s: Seq<char>) -> bool {
    forall|i: int| 0 <= i < s.len() ==> is_digit(#[trigger] s[i])
}

/// The value of a digit string, most significant digit first.
pub open spec fn digits_val(s: Seq<char>) -> int
    decreases s.len(),
{
    if s.len() == 0 {
        0
    } else {
        digits_val(s.drop_last()) * 10 + digit_val(s.last())
    }
}

/// The integer an unsigned parse yields for `s`, if any: an optional `+`,
/// then one or more digits.
pub open spec fn unsigned_value(s: Seq<char>) -> Option<int> {
    let body = if s.len() > 0 && s[0] == '+' {
        s.drop_first()
    } else {
        s
    };
    if body.len() > 0 && all_digits(body) {
        Some(digits_val(body))
    } else {
        None
    }
}

/// The integer a signed parse yields for `s`, if any: an optional `+` or
/// `-`, then one or more digits.
pub open spec fn signed_value(s: Seq<char>) -> Option<int> {
    if s.len() > 0 && s[0] == '-' {
        let body = s.drop_first();
        if body.len() > 0 && all_digits(body) {
            Some(-digits_val(body))
        } else {
            None
        }
    } else {
        unsigned_value(s)
    }
}

/// A character a canonical integer rendering may contain.
pub open spec fn scalar_char(c: char) -> bool {
    is_digit(c) || c == '-'
}

/// A canonical integer rendering: non-empty, digits and `-` only.
pub open spec fn scalar_text(s: Seq<char>) -> bool {
    s.len() > 0 && forall|i: int| 0 <= i < s.len() ==> scalar_char(#[trigger] s[i])
}

/// No rendering character collides with any codec separator.
pub proof fn lemma_scalar_char_not_sep(c: char)
    requires
        scalar_char(c),
    ensures
        c != '_',
        c != '|',
        c != 'x',
        c != ';',
        c != '+',
{
}

/// A digit is not a sign character.
pub proof fn lemma_digit_not_sign(c: char)
    requires
        is_digit(c),
    ensures
        c != '-',
        c != '+',
{
}

/// `digit_char` yields a digit character whose value is the one given.
pub proof fn lemma_digit_char(d: int)
    requires
        0 <= d < 10,
    ensures
        is_digit(digit_char(d)),
        digit_val(digit_char(d)) == d,
{
}

/// The canonical rendering of a non-negative integer is non-empty, consists
/// of digits, and evaluates back to the integer.
pub proof fn lemma_uint_text(n: nat)
    ensures
        uint_text(n).len() > 0,
        all_digits(uint_text(n)),
        digits_val(uint_text(n)) == n,
    decreases n,
{
    if n < 10 {
        lemma_digit_char(n as int);
        let s = uint_text(n);
        assert(digits_val(Seq::<char>::empty()) == 0);
        assert(s.drop_last() =~= Seq::<char>::empty());
        assert(s.last() == digit_char(n as int));
        assert(digits_val(s) == digits_val(s.drop_last()) * 10 + digit_val(s.last()));
    } else {
        lemma_digit_char((n % 10) as int);
        lemma_uint_text(n / 10);
        let a = uint_text(n / 10);
        let s = uint_text(n);
        assert(s.drop_last() =~= a);
        assert(s.last() == digit_char((n % 10) as int));
        assert forall|i: int| 0 <= i < s.len() implies is_digit(#[trigger] s[i]) by {
            if i < a.len() {
                assert(s[i] == a[i]);
            }
        }
        assert(digits_val(s) == (n / 10) * 10 + (n % 10));
    }
}

/// A digit string's value is non-negative.
pub proof fn lemma_digits_val_nonneg(s: Seq<char>)
    requires
        all_digits(s),
    ensures
        digits_val(s) >= 0,
    decreases s.len(),
{
    if s.len() > 0 {
        assert forall|i: int| 0 <= i < s.drop_last().len() implies is_digit(
            #[trigger] s.drop_last()[i],
        ) by {
            assert(s.drop_last()[i] == s[i]);
        }
        lemma_digits_val_nonneg(s.drop_last());
    }
}

/// Extending a digit string on the right can only grow its value.
pub proof fn lemma_digits_val_grows(s: Seq<char>, i: int)
    requires
        all_digits(s),
        0 <= i <= s.len(),
    ensures
        digits_val(s) >= digits_val(s.take(i)),
    decreases s.len() - i,
{
    assert forall|k: int| 0 <= k <= s.len() implies all_digits(s.take(k)) by {
        assert forall|m: int| 0 <= m < s.take(k).len() implies is_digit(
            #[trigger] s.take(k)[m],
        ) by {
            assert(s.take(k)[m] == s[m]);
        }
    }
    if i == s.len() {
        assert(s.take(i) =~= s);
    } else {
        assert(s.take(i + 1).drop_last() =~= s.take(i));
        assert(s.take(i + 1).last() == s[i]);
        lemma_digits_val_nonneg(s.take(i));
        lemma_digits_val_grows(s, i + 1);
    }
}

/// The decimal rendering of one digit.
fn digit_string(d: u64) -> (r: String)
    requires
        d < 10,
    ensures
        r@ == seq![digit_char(d as int)],
{
    let s: &str = if d == 0 {
        "0"
    } else if d == 1 {
        "1"
    } else if d == 2 {
        "2"
    } else if d == 3 {
        "3"
    } else if d == 4 {
        "4"
    } else if d == 5 {
        "5"
    } else if d == 6 {
        "6"
    } else if d == 7 {
        "7"
    } else if d == 8 {
        "8"
    } else {
        "9"
    };
    proof {
        reveal_strlit("0");
        reveal_strlit("1");
        reveal_strlit("2");
        reveal_strlit("3");
        reveal_strlit("4");
        reveal_strlit("5");
        reveal_strlit("6");
        reveal_strlit("7");
        reveal_strlit("8");
        reveal_strlit("9");
        assert(s@ =~= seq![digit_char(d as int)]);
    }
    s.to_owned()
}

/// Render a non-negative integer in decimal.
pub fn uint_string(n: u64) -> (r: String)
    ensures
        r@ == uint_text(n as nat),
    decreases n,
{
    if n < 10 {
        digit_string(n)
    } else {
        let mut r = uint_string(n / 10);
        let d = digit_string(n % 10);
        r.append(d.as_str());
        r
    }
}

/// Read a digit string into an accumulator, failing on a non-digit, an
/// empty string, or a value above `max`.
pub fn digits_to_u128(s: &str, max: u128) -> (r: Option<u128>)
    requires
        max <= u64::MAX as u128,
    ensures
        match r {
            Some(v) => s@.len() > 0 && all_digits(s@) && digits_val(s@) == v as int && v <= max,
            None => s@.len() == 0 || !all_digits(s@) || digits_val(s@) > max as int,
        },
{
    let n = s.unicode_len();
    if n == 0 {
        return None;
    }
    let mut acc: u128 = 0;
    let mut i: usize = 0;
    proof {
        assert(s@.take(0) =~= Seq::<char>::empty());
    }
    while i < n
        invariant
            i <= n,
            n == s@.len(),
            max <= u64::MAX as u128,
            all_digits(s@.take(i as int)),
            acc as int == digits_val(s@.take(i as int)),
            acc <= max,
        decreases n - i,
    {
        let c = s.get_char(i);
        let u = c as u32;
        if u < 48 || u > 57 {
            proof {
                assert(!is_digit(s@[i as int]));
            }
            return None;
        }
        let d: u128 = (u - 48) as u128;
        proof {
            assert(s@.take(i as int + 1).drop_last() =~= s@.take(i as int));
            assert(s@.take(i as int + 1).last() == s@[i as int]);
            assert forall|k: int| 0 <= k < s@.take(i as int + 1).len() implies is_digit(
                #[trigger] s@.take(i as int + 1)[k],
            ) by {
                assert(s@.take(i as int + 1)[k] == s@[k]);
                if k < i {
                    assert(s@.take(i as int)[k] == s@[k]);
                }
            }
        }
        let new_acc: u128 = acc * 10 + d;
        if new_acc > max {
            proof {
                if all_digits(s@) {
                    lemma_digits_val_grows(s@, i as int + 1);
                }
            }
            return None;
        }
        acc = new_acc;
        i += 1;
    }
    proof {
        assert(s@.take(n as int) =~= s@);
    }
    Some(acc)
}

} // verus!
