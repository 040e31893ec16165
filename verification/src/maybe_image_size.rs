//! `Some((16, 1024))` <--> `"16x1024"`: an optional width-height pair.
//!
//! The two sides may have different numeric types. `None` is the empty
//! string. A non-empty cell is split at the first `x`; a non-empty cell
//! without an `x` is a format error.

use vstd::prelude::*;

use crate::error::DecodeError;
use crate::num_text::{lemma_scalar_char_not_sep, scalar_char};
use crate::scalar::Scalar;
use crate::text::{find_char, find_in_str, lemma_find_char, lemma_find_char_is};

verus! {

/// The cell text for an optional pair.
pub open spec fn encoded<W: Scalar, H: Scalar>(v: Option<(W, H)>) -> Seq<char> {
    match v {
        Some(p) => p.0.text() + seq!['x'] + p.1.text(),
        None => Seq::empty(),
    }
}

/// The pair a cell text decodes to, if it decodes: the part before the
/// first `x` is the width, everything after it is the height.
pub open spec fn decoded<W: Scalar, H: Scalar>(s: Seq<char>) -> Option<Option<(W, H)>> {
    if s.len() == 0 {
        Some(None)
    } else {
        let k = find_char(s, 'x');
        if k == s.len() {
            None
        } else {
            match (W::accepts(s.take(k)), H::accepts(s.skip(k + 1))) {
                (Some(w), Some(h)) => Some(Some((w, h))),
                _ => None,
            }
        }
    }
}

/// Encode an optional pair into one cell.
pub fn encode<W: Scalar, H: Scalar>(v: &Option<(W, H)>) -> (r: String)
    ensures
        r@ == encoded::<W, H>(*v),
{
    match v {
        None => String::new(),
        Some(p) => {
            let mut r = p.0.to_text();
            r.append("x");
            let h = p.1.to_text();
            r.append(h.as_str());
            proof {
                reveal_strlit("x");
                assert("x"@ =~= seq!['x']);
            }
            r
        },
    }
}

/// Decode one cell into an optional pair.
pub fn decode<W: Scalar, H: Scalar>(s: &str) -> (r: Result<Option<(W, H)>, DecodeError>)
    ensures
        ({
            let k = find_char(s@, 'x');
            match r {
                Ok(v) => decoded::<W, H>(s@) == Some(v),
                Err(e) => decoded::<W, H>(s@) is None && match e {
                    DecodeError::Format => s@.len() > 0 && k == s@.len(),
                    DecodeError::Token { token } => k < s@.len() && (if W::accepts(
                        s@.take(k),
                    ) is None {
                        token@ == s@.take(k)
                    } else {
                        token@ == s@.skip(k + 1)
                    }),
                },
            }
        }),
{
    let n = s.unicode_len();
    if n == 0 {
        return Ok(None);
    }
    let k = find_in_str(s, 'x');
    proof {
        lemma_find_char(s@, 'x');
    }
    if k == n {
        return Err(DecodeError::Format);
    }
    let wstr = s.substring_char(0, k);
    let hstr = s.substring_char(k + 1, n);
    proof {
        assert(wstr@ =~= s@.take(k as int));
        assert(hstr@ =~= s@.skip(k as int + 1));
    }
    match W::from_text(wstr) {
        None => {
            let token = wstr.to_owned();
            Err(DecodeError::Token { token })
        },
        Some(w) => match H::from_text(hstr) {
            None => {
                let token = hstr.to_owned();
                Err(DecodeError::Token { token })
            },
            Some(h) => Ok(Some((w, h))),
        },
    }
}

/// Decoding undoes encoding: every optional pair comes back from its own
/// cell text.
pub proof fn lemma_round_trip<W: Scalar, H: Scalar>(v: Option<(W, H)>)
    ensures
        decoded::<W, H>(encoded::<W, H>(v)) == Some(v),
{
    match v {
        None => {
        },
        Some(p) => {
            let w = p.0;
            let h = p.1;
            w.lemma_text_wf();
            h.lemma_text_wf();
            let s = encoded::<W, H>(v);
            let wl = w.text().len() as int;
            assert forall|j: int| 0 <= j < wl implies s[j] != 'x' by {
                assert(s[j] == w.text()[j]);
                assert(scalar_char(w.text()[j]));
                lemma_scalar_char_not_sep(w.text()[j]);
            }
            assert(s[wl] == 'x');
            lemma_find_char_is(s, 'x', wl);
            assert(s.take(wl) =~= w.text());
            assert(s.skip(wl + 1) =~= h.text());
        },
    }
}

/// The empty string is the one cell text of `None`, and every present pair
/// has a non-empty cell text.
pub proof fn lemma_empty_canonical<W: Scalar, H: Scalar>(v: Option<(W, H)>)
    ensures
        encoded::<W, H>(None) == Seq::<char>::empty(),
        decoded::<W, H>(Seq::empty()) == Some(None::<(W, H)>),
        encoded::<W, H>(v).len() == 0 <==> v is None,
{
}

/// A non-empty cell never decodes to `None`.
pub proof fn lemma_nonempty_cell<W: Scalar, H: Scalar>(s: Seq<char>)
    ensures
        s.len() > 0 ==> match decoded::<W, H>(s) {
            Some(v) => v is Some,
            None => true,
        },
{
}

} // verus!
