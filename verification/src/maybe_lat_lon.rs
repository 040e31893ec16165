//! `Some((84, -135))` <--> `"84;-135"`: an optional coordinate pair.
//!
//! Both sides have the same numeric type. `None` is the empty string. A
//! non-empty cell is split at the first `;`; a non-empty cell without a
//! `;` is a format error.

use vstd::prelude::*;

use crate::error::DecodeError;
use crate::num_text::{lemma_scalar_char_not_sep, scalar_char};
use crate::scalar::Scalar;
use crate::text::{find_char, find_in_str, lemma_find_char, lemma_find_char_is};

verus! {

/// The cell text for an optional pair.
pub open spec fn encoded<T: Scalar>(v: Option<(T, T)>) -> Seq<char> {
    match v {
        Some(p) => p.0.text() + seq![';'] + p.1.text(),
        None => Seq::empty(),
    }
}

/// The pair a cell text decodes to, if it decodes: the part before the
/// first `;` is the first coordinate, everything after it is the second.
pub open spec fn decoded<T: Scalar>(s: Seq<char>) -> Option<Option<(T, T)>> {
    if s.len() == 0 {
        Some(None)
    } else {
        let k = find_char(s, ';');
        if k == s.len() {
            None
        } else {
            match (T::accepts(s.take(k)), T::accepts(s.skip(k + 1))) {
                (Some(a), Some(b)) => Some(Some((a, b))),
                _ => None,
            }
        }
    }
}

/// Encode an optional pair into one cell.
pub fn encode<T: Scalar>(v: &Option<(T, T)>) -> (r: String)
    ensures
        r@ == encoded::<T>(*v),
{
    match v {
        None => String::new(),
        Some(p) => {
            let mut r = p.0.to_text();
            r.append(";");
            let b = p.1.to_text();
            r.append(b.as_str());
            proof {
                reveal_strlit(";");
                assert(";"@ =~= seq![';']);
            }
            r
        },
    }
}

/// Decode one cell into an optional pair.
pub fn decode<T: Scalar>(s: &str) -> (r: Result<Option<(T, T)>, DecodeError>)
    ensures
        ({
            let k = find_char(s@, ';');
            match r {
                Ok(v) => decoded::<T>(s@) == Some(v),
                Err(e) => decoded::<T>(s@) is None && match e {
                    DecodeError::Format => s@.len() > 0 && k == s@.len(),
                    DecodeError::Token { token } => k < s@.len() && (if T::accepts(
                        s@.take(k),
                    ) is None {
                        token@ == s@.take(k)
                    } else {
                        token@ == s@.skip(k + 1)
                    }),
                },
            }
        }),
{
    let n = s.unicode_len();
    if n == 0 {
        return Ok(None);
    }
    let k = find_in_str(s, ';');
    proof {
        lemma_find_char(s@, ';');
    }
    if k == n {
        return Err(DecodeError::Format);
    }
    let astr = s.substring_char(0, k);
    let bstr = s.substring_char(k + 1, n);
    proof {
        assert(astr@ =~= s@.take(k as int));
        assert(bstr@ =~= s@.skip(k as int + 1));
    }
    match T::from_text(astr) {
        None => {
            let token = astr.to_owned();
            Err(DecodeError::Token { token })
        },
        Some(a) => match T::from_text(bstr) {
            None => {
                let token = bstr.to_owned();
                Err(DecodeError::Token { token })
            },
            Some(b) => Ok(Some((a, b))),
        },
    }
}

/// Decoding undoes encoding: every optional pair comes back from its own
/// cell text.
pub proof fn lemma_round_trip<T: Scalar>(v: Option<(T, T)>)
    ensures
        decoded::<T>(encoded::<T>(v)) == Some(v),
{
    match v {
        None => {
        },
        Some(p) => {
            let a = p.0;
            let b = p.1;
            a.lemma_text_wf();
            b.lemma_text_wf();
            let s = encoded::<T>(v);
            let al = a.text().len() as int;
            assert forall|j: int| 0 <= j < al implies s[j] != ';' by {
                assert(s[j] == a.text()[j]);
                assert(scalar_char(a.text()[j]));
                lemma_scalar_char_not_sep(a.text()[j]);
            }
            assert(s[al] == ';');
            lemma_find_char_is(s, ';', al);
            assert(s.take(al) =~= a.text());
            assert(s.skip(al + 1) =~= b.text());
        },
    }
}

/// The empty string is the one cell text of `None`, and every present pair
/// has a non-empty cell text.
pub proof fn lemma_empty_canonical<T: Scalar>(v: Option<(T, T)>)
    ensures
        encoded::<T>(None) == Seq::<char>::empty(),
        decoded::<T>(Seq::empty()) == Some(None::<(T, T)>),
        encoded::<T>(v).len() == 0 <==> v is None,
{
}

/// A non-empty cell never decodes to `None`.
pub proof fn lemma_nonempty_cell<T: Scalar>(s: Seq<char>)
    ensures
        s.len() > 0 ==> match decoded::<T>(s) {
            Some(v) => v is Some,
            None => true,
        },
{
}

} // verus!
