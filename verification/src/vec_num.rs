//! `[-1, 1]` <--> `"-1_1"`: a numeric list in one cell.
//!
//! Elements are rendered in order and joined with `_`. The empty list is
//! the empty string, checked before any splitting: splitting the empty
//! string would yield one empty token, not zero tokens.

use vstd::prelude::*;

use crate::error::DecodeError;
use crate::num_text::{lemma_scalar_char_not_sep, scalar_char, scalar_text};
use crate::scalar::Scalar;
use crate::text::{
    join_with, lemma_join_nonempty, lemma_join_push, lemma_split_join, lemma_split_len, split_on,
    split_str,
};

verus! {

/// The cell text for a list.
pub open spec fn encoded<T: Scalar>(l: Seq<T>) -> Seq<char> {
    join_with(l.map_values(|t: T| t.text()), '_')
}

/// The values of a token sequence, if every token parses.
pub open spec fn parse_all<T: Scalar>(toks: Seq<Seq<char>>) -> Option<Seq<T>>
    decreases toks.len(),
{
    if toks.len() == 0 {
        Some(Seq::empty())
    } else {
        match T::accepts(toks[0]) {
            Some(v) => match parse_all::<T>(toks.drop_first()) {
                Some(rest) => Some(seq![v] + rest),
                None => None,
            },
            None => None,
        }
    }
}

/// The first token of a sequence that does not parse.
pub open spec fn first_reject<T: Scalar>(toks: Seq<Seq<char>>) -> Seq<char>
    decreases toks.len(),
{
    if toks.len() == 0 {
        Seq::empty()
    } else if T::accepts(toks[0]) is None {
        toks[0]
    } else {
        first_reject::<T>(toks.drop_first())
    }
}

/// The list a cell text decodes to, if it decodes.
pub open spec fn decoded<T: Scalar>(s: Seq<char>) -> Option<Seq<T>> {
    if s.len() == 0 {
        Some(Seq::empty())
    } else {
        parse_all::<T>(split_on(s, '_'))
    }
}

/// Parsing a token sequence whose first `i` tokens are known to parse.
pub(crate) proof fn lemma_parse_all_prefix<T: Scalar>(toks: Seq<Seq<char>>, vals: Seq<T>, i: int)
    requires
        0 <= i <= toks.len(),
        vals.len() == i,
        forall|j: int| 0 <= j < i ==> T::accepts(toks[j]) == Some(vals[j]),
    ensures
        parse_all::<T>(toks) == match parse_all::<T>(toks.skip(i)) {
            Some(rest) => Some(vals + rest),
            None => None::<Seq<T>>,
        },
        parse_all::<T>(toks.skip(i)) is None ==> first_reject::<T>(toks) == first_reject::<T>(
            toks.skip(i),
        ),
    decreases i,
{
    if i == 0 {
        assert(toks.skip(0) =~~= toks);
        match parse_all::<T>(toks) {
            Some(rest) => {
                assert(vals + rest =~= rest);
            },
            None => {
            },
        }
    } else {
        assert(T::accepts(toks[0]) == Some(vals[0]));
        assert forall|j: int| 0 <= j < i - 1 implies T::accepts(toks.drop_first()[j]) == Some(
            vals.drop_first()[j],
        ) by {
            assert(toks.drop_first()[j] == toks[j + 1]);
            assert(vals.drop_first()[j] == vals[j + 1]);
        }
        lemma_parse_all_prefix::<T>(toks.drop_first(), vals.drop_first(), i - 1);
        assert(toks.drop_first().skip(i - 1) =~~= toks.skip(i));
        match parse_all::<T>(toks.skip(i)) {
            Some(rest) => {
                assert(seq![vals[0]] + (vals.drop_first() + rest) =~= vals + rest);
            },
            None => {
            },
        }
    }
}

/// The rendered elements of a list all parse back to the elements.
pub(crate) proof fn lemma_parse_all_texts<T: Scalar>(l: Seq<T>)
    ensures
        parse_all::<T>(l.map_values(|t: T| t.text())) == Some(l),
    decreases l.len(),
{
    let texts = l.map_values(|t: T| t.text());
    if l.len() == 0 {
        assert(texts.len() == 0);
    } else {
        l[0].lemma_text_wf();
        assert(texts[0] == l[0].text());
        lemma_parse_all_texts::<T>(l.drop_first());
        assert(texts.drop_first() =~~= l.drop_first().map_values(|t: T| t.text()));
        assert(seq![l[0]] + l.drop_first() =~= l);
    }
}

/// The rendered elements of a list are non-empty and free of every separator.
pub(crate) proof fn lemma_texts_wf<T: Scalar>(l: Seq<T>)
    ensures
        forall|i: int| 0 <= i < l.len() ==> scalar_text((#[trigger] l[i]).text()),
{
    assert forall|i: int| 0 <= i < l.len() implies scalar_text((#[trigger] l[i]).text()) by {
        l[i].lemma_text_wf();
    }
}

/// Encode a list into one cell.
pub fn encode<T: Scalar>(list: &Vec<T>) -> (r: String)
    ensures
        r@ == encoded::<T>(list@),
{
    let ghost parts = list@.map_values(|t: T| t.text());
    let mut r = String::new();
    let mut i: usize = 0;
    proof {
        assert(parts.take(0) =~~= Seq::<Seq<char>>::empty());
    }
    while i < list.len()
        invariant
            i <= list.len(),
            parts == list@.map_values(|t: T| t.text()),
            r@ == join_with(parts.take(i as int), '_'),
        decreases list.len() - i,
    {
        if i > 0 {
            r.append("_");
        }
        let t = list[i].to_text();
        r.append(t.as_str());
        proof {
            reveal_strlit("_");
            assert("_"@ =~= seq!['_']);
            lemma_join_push(parts.take(i as int), parts[i as int], '_');
            assert(parts.take(i as int).push(parts[i as int]) =~~= parts.take(i as int + 1));
        }
        i += 1;
    }
    proof {
        assert(parts.take(list@.len() as int) =~~= parts);
    }
    r
}

/// Parse every token of a row, in order, aborting on the first failure.
pub(crate) fn parse_tokens<T: Scalar>(toks: &Vec<String>) -> (r: Result<Vec<T>, DecodeError>)
    ensures
        ({
            let tv = toks@.map_values(|t: String| t@);
            match r {
                Ok(v) => parse_all::<T>(tv) == Some(v@),
                Err(e) => parse_all::<T>(tv) is None && (e matches DecodeError::Token { token }
                    && token@ == first_reject::<T>(tv)),
            }
        }),
{
    let ghost tv = toks@.map_values(|t: String| t@);
    let mut out: Vec<T> = Vec::new();
    let mut i: usize = 0;
    while i < toks.len()
        invariant
            i <= toks.len(),
            tv == toks@.map_values(|t: String| t@),
            out@.len() == i,
            forall|j: int| 0 <= j < i ==> T::accepts(tv[j]) == Some(out@[j]),
        decreases toks.len() - i,
    {
        match T::from_text(toks[i].as_str()) {
            Some(v) => {
                out.push(v);
            },
            None => {
                proof {
                    lemma_parse_all_prefix::<T>(tv, out@, i as int);
                    assert(tv.skip(i as int)[0] == tv[i as int]);
                    assert(T::accepts(tv.skip(i as int)[0]) is None);
                }
                let token = toks[i].clone();
                return Err(DecodeError::Token { token });
            },
        }
        i += 1;
    }
    proof {
        lemma_parse_all_prefix::<T>(tv, out@, i as int);
        assert(tv.skip(i as int) =~~= Seq::<Seq<char>>::empty());
        assert(out@ + Seq::<T>::empty() =~= out@);
    }
    Ok(out)
}

/// Decode one cell into a list.
pub fn decode<T: Scalar>(s: &str) -> (r: Result<Vec<T>, DecodeError>)
    ensures
        match r {
            Ok(v) => decoded::<T>(s@) == Some(v@),
            Err(e) => decoded::<T>(s@) is None && (e matches DecodeError::Token { token }
                && token@ == first_reject::<T>(split_on(s@, '_'))),
        },
{
    if s.unicode_len() == 0 {
        return Ok(Vec::new());
    }
    let toks = split_str(s, '_');
    parse_tokens::<T>(&toks)
}

/// Decoding undoes encoding: every list comes back from its own cell text.
pub proof fn lemma_round_trip<T: Scalar>(l: Seq<T>)
    ensures
        decoded::<T>(encoded::<T>(l)) == Some(l),
{
    let texts = l.map_values(|t: T| t.text());
    if l.len() == 0 {
        assert(encoded::<T>(l).len() == 0);
    } else {
        lemma_texts_wf::<T>(l);
        assert forall|i: int, j: int|
            0 <= i < texts.len() && 0 <= j < texts[i].len() implies texts[i][j] != '_' by {
            assert(texts[i] == l[i].text());
            assert(scalar_char(texts[i][j]));
            lemma_scalar_char_not_sep(texts[i][j]);
        }
        assert(texts[0] == l[0].text());
        assert(texts[0].len() > 0);
        lemma_join_nonempty(texts, '_');
        lemma_split_join(texts, '_');
        lemma_parse_all_texts::<T>(l);
    }
}

/// The empty string is the one cell text of the empty list, and every
/// non-empty list has a non-empty cell text.
pub proof fn lemma_empty_canonical<T: Scalar>(l: Seq<T>)
    ensures
        decoded::<T>(Seq::empty()) == Some(Seq::<T>::empty()),
        encoded::<T>(l).len() == 0 <==> l.len() == 0,
{
    let texts = l.map_values(|t: T| t.text());
    if l.len() > 0 {
        lemma_texts_wf::<T>(l);
        assert(texts[0] == l[0].text());
        assert(texts[0].len() > 0);
        lemma_join_nonempty(texts, '_');
    }
}

/// A non-empty cell never decodes to the empty list.
pub proof fn lemma_nonempty_cell<T: Scalar>(s: Seq<char>)
    ensures
        s.len() > 0 ==> match decoded::<T>(s) {
            Some(v) => v.len() > 0,
            None => true,
        },
{
    if s.len() > 0 {
        lemma_split_len(s, '_');
    }
}

} // verus!
