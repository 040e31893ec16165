//! `[[-1, 1], [1, -1]]` <--> `"-1_1|1_-1"`: a list of numeric lists in one cell.
//!
//! Each row is rendered as in [`crate::vec_num`] and the rows are joined
//! with `|`. The empty matrix is the empty string, checked before any
//! splitting. A row segment of a non-empty cell is never empty in encoded
//! text; on decoding, an empty segment (as in `"1||2"`) is rejected,
//! because its single empty token is not a number.

use vstd::prelude::*;

use crate::error::DecodeError;
use crate::num_text::{lemma_scalar_char_not_sep, scalar_char};
use crate::scalar::Scalar;
use crate::text::{
    join_with, lemma_join_free_of, lemma_join_has_sep, lemma_join_nonempty, lemma_join_push,
    lemma_split_join, lemma_split_len, split_on, split_str,
};
use crate::vec_num::{first_reject, lemma_parse_all_texts, lemma_texts_wf, parse_all, parse_tokens};

verus! {

/// The cell text for a matrix.
pub open spec fn encoded<T: Scalar>(m: Seq<Seq<T>>) -> Seq<char> {
    join_with(m.map_values(|row: Seq<T>| crate::vec_num::encoded::<T>(row)), '|')
}

/// The rows of a row-segment sequence, if every token of every row parses.
pub open spec fn parse_rows<T: Scalar>(rows: Seq<Seq<char>>) -> Option<Seq<Seq<T>>>
    decreases rows.len(),
{
    if rows.len() == 0 {
        Some(Seq::empty())
    } else {
        match parse_all::<T>(split_on(rows[0], '_')) {
            Some(row) => match parse_rows::<T>(rows.drop_first()) {
                Some(rest) => Some(seq![row] + rest),
                None => None,
            },
            None => None,
        }
    }
}

/// The first token of any row that does not parse, in row order.
pub open spec fn first_reject_rows<T: Scalar>(rows: Seq<Seq<char>>) -> Seq<char>
    decreases rows.len(),
{
    if rows.len() == 0 {
        Seq::empty()
    } else if parse_all::<T>(split_on(rows[0], '_')) is None {
        first_reject::<T>(split_on(rows[0], '_'))
    } else {
        first_reject_rows::<T>(rows.drop_first())
    }
}

/// The matrix a cell text decodes to, if it decodes.
pub open spec fn decoded<T: Scalar>(s: Seq<char>) -> Option<Seq<Seq<T>>> {
    if s.len() == 0 {
        Some(Seq::empty())
    } else {
        parse_rows::<T>(split_on(s, '|'))
    }
}

/// Parsing a row-segment sequence whose first `i` rows are known to parse.
proof fn lemma_parse_rows_prefix<T: Scalar>(rows: Seq<Seq<char>>, vals: Seq<Seq<T>>, i: int)
    requires
        0 <= i <= rows.len(),
        vals.len() == i,
        forall|j: int| 0 <= j < i ==> parse_all::<T>(split_on(rows[j], '_')) == Some(vals[j]),
    ensures
        parse_rows::<T>(rows) == match parse_rows::<T>(rows.skip(i)) {
            Some(rest) => Some(vals + rest),
            None => None::<Seq<Seq<T>>>,
        },
        parse_rows::<T>(rows.skip(i)) is None ==> first_reject_rows::<T>(rows)
            == first_reject_rows::<T>(rows.skip(i)),
    decreases i,
{
    if i == 0 {
        assert(rows.skip(0) =~~= rows);
        match parse_rows::<T>(rows) {
            Some(rest) => {
                assert(vals + rest =~~= rest);
            },
            None => {
            },
        }
    } else {
        assert(parse_all::<T>(split_on(rows[0], '_')) == Some(vals[0]));
        assert forall|j: int| 0 <= j < i - 1 implies parse_all::<T>(
            split_on(rows.drop_first()[j], '_'),
        ) == Some(vals.drop_first()[j]) by {
            assert(rows.drop_first()[j] == rows[j + 1]);
            assert(vals.drop_first()[j] == vals[j + 1]);
        }
        lemma_parse_rows_prefix::<T>(rows.drop_first(), vals.drop_first(), i - 1);
        assert(rows.drop_first().skip(i - 1) =~~= rows.skip(i));
        match parse_rows::<T>(rows.skip(i)) {
            Some(rest) => {
                assert(seq![vals[0]] + (vals.drop_first() + rest) =~~= vals + rest);
            },
            None => {
            },
        }
    }
}

/// The rendered rows of a matrix all parse back to the rows, as long as no
/// row is empty.
proof fn lemma_parse_rows_encoded<T: Scalar>(m: Seq<Seq<T>>)
    requires
        forall|i: int| 0 <= i < m.len() ==> (#[trigger] m[i]).len() > 0,
    ensures
        parse_rows::<T>(m.map_values(|row: Seq<T>| crate::vec_num::encoded::<T>(row))) == Some(m),
    decreases m.len(),
{
    let parts = m.map_values(|row: Seq<T>| crate::vec_num::encoded::<T>(row));
    if m.len() == 0 {
        assert(parts.len() == 0);
    } else {
        let row = m[0];
        let texts = row.map_values(|t: T| t.text());
        lemma_texts_wf::<T>(row);
        assert forall|i: int, j: int|
            0 <= i < texts.len() && 0 <= j < texts[i].len() implies texts[i][j] != '_' by {
            assert(texts[i] == row[i].text());
            assert(scalar_char(texts[i][j]));
            lemma_scalar_char_not_sep(texts[i][j]);
        }
        lemma_split_join(texts, '_');
        lemma_parse_all_texts::<T>(row);
        assert(parts[0] == crate::vec_num::encoded::<T>(row));
        assert forall|i: int| 0 <= i < m.drop_first().len() implies (
        #[trigger] m.drop_first()[i]).len() > 0 by {
            assert(m.drop_first()[i] == m[i + 1]);
        }
        lemma_parse_rows_encoded::<T>(m.drop_first());
        assert(parts.drop_first() =~~= m.drop_first().map_values(
            |row: Seq<T>| crate::vec_num::encoded::<T>(row),
        ));
        assert(seq![row] + m.drop_first() =~~= m);
    }
}

/// The rendered rows of a matrix are free of the row separator.
proof fn lemma_rows_pipe_free<T: Scalar>(m: Seq<Seq<T>>)
    ensures
        forall|i: int, j: int|
            0 <= i < m.len() && 0 <= j < crate::vec_num::encoded::<T>(m[i]).len()
                ==> (#[trigger] crate::vec_num::encoded::<T>(m[i])[j]) != '|',
{
    assert forall|i: int, j: int|
        0 <= i < m.len() && 0 <= j < crate::vec_num::encoded::<T>(m[i]).len() implies (
    #[trigger] crate::vec_num::encoded::<T>(m[i])[j]) != '|' by {
        let row = m[i];
        let texts = row.map_values(|t: T| t.text());
        lemma_texts_wf::<T>(row);
        assert forall|a: int, b: int|
            0 <= a < texts.len() && 0 <= b < texts[a].len() implies texts[a][b] != '|' by {
            assert(texts[a] == row[a].text());
            assert(scalar_char(texts[a][b]));
            lemma_scalar_char_not_sep(texts[a][b]);
        }
        lemma_join_free_of(texts, '_', '|');
    }
}

/// Encode a matrix into one cell.
pub fn encode<T: Scalar>(rows: &Vec<Vec<T>>) -> (r: String)
    ensures
        r@ == encoded::<T>(rows@.map_values(|row: Vec<T>| row@)),
{
    let ghost m = rows@.map_values(|row: Vec<T>| row@);
    let ghost parts = m.map_values(|row: Seq<T>| crate::vec_num::encoded::<T>(row));
    let mut r = String::new();
    let mut i: usize = 0;
    proof {
        assert(parts.take(0) =~~= Seq::<Seq<char>>::empty());
    }
    while i < rows.len()
        invariant
            i <= rows.len(),
            m == rows@.map_values(|row: Vec<T>| row@),
            parts == m.map_values(|row: Seq<T>| crate::vec_num::encoded::<T>(row)),
            r@ == join_with(parts.take(i as int), '|'),
        decreases rows.len() - i,
    {
        if i > 0 {
            r.append("|");
        }
        let cell = crate::vec_num::encode(&rows[i]);
        r.append(cell.as_str());
        proof {
            reveal_strlit("|");
            assert("|"@ =~= seq!['|']);
            assert(m[i as int] == rows@[i as int]@);
            assert(parts[i as int] == crate::vec_num::encoded::<T>(m[i as int]));
            lemma_join_push(parts.take(i as int), parts[i as int], '|');
            assert(parts.take(i as int).push(parts[i as int]) =~~= parts.take(i as int + 1));
        }
        i += 1;
    }
    proof {
        assert(parts.take(m.len() as int) =~~= parts);
    }
    r
}

/// Decode one cell into a matrix.
pub fn decode<T: Scalar>(s: &str) -> (r: Result<Vec<Vec<T>>, DecodeError>)
    ensures
        match r {
            Ok(v) => decoded::<T>(s@) == Some(v@.map_values(|row: Vec<T>| row@)),
            Err(e) => decoded::<T>(s@) is None && (e matches DecodeError::Token { token }
                && token@ == first_reject_rows::<T>(split_on(s@, '|'))),
        },
{
    if s.unicode_len() == 0 {
        let r: Vec<Vec<T>> = Vec::new();
        proof {
            assert(r@.map_values(|row: Vec<T>| row@) =~~= Seq::<Seq<T>>::empty());
        }
        return Ok(r);
    }
    let rows = split_str(s, '|');
    let ghost rv = rows@.map_values(|t: String| t@);
    let mut out: Vec<Vec<T>> = Vec::new();
    let mut i: usize = 0;
    while i < rows.len()
        invariant
            i <= rows.len(),
            s@.len() > 0,
            rv == rows@.map_values(|t: String| t@),
            rv == split_on(s@, '|'),
            out@.len() == i,
            forall|j: int|
                0 <= j < i ==> parse_all::<T>(split_on(rv[j], '_')) == Some(#[trigger] out@[j]@),
        decreases rows.len() - i,
    {
        let toks = split_str(rows[i].as_str(), '_');
        proof {
            assert(rows@[i as int]@ == rv[i as int]);
        }
        match parse_tokens::<T>(&toks) {
            Ok(row) => {
                out.push(row);
            },
            Err(e) => {
                proof {
                    let vals = out@.map_values(|row: Vec<T>| row@);
                    assert forall|j: int| 0 <= j < i implies parse_all::<T>(
                        split_on(rv[j], '_'),
                    ) == Some(vals[j]) by {
                        assert(vals[j] == out@[j]@);
                    }
                    lemma_parse_rows_prefix::<T>(rv, vals, i as int);
                    assert(rv.skip(i as int)[0] == rv[i as int]);
                    assert(rv.skip(i as int).len() > 0);
                    assert(toks@.map_values(|t: String| t@) == split_on(rv[i as int], '_'));
                    assert(parse_all::<T>(split_on(rv[i as int], '_')) is None);
                    assert(parse_rows::<T>(rv.skip(i as int)) is None);
                    assert(first_reject_rows::<T>(rv.skip(i as int)) == first_reject::<T>(
                        split_on(rv[i as int], '_'),
                    ));
                }
                return Err(e);
            },
        }
        i += 1;
    }
    proof {
        let vals = out@.map_values(|row: Vec<T>| row@);
        assert forall|j: int| 0 <= j < i implies parse_all::<T>(split_on(rv[j], '_')) == Some(
            vals[j],
        ) by {
            assert(vals[j] == out@[j]@);
        }
        lemma_parse_rows_prefix::<T>(rv, vals, i as int);
        assert(rv.skip(i as int) =~~= Seq::<Seq<char>>::empty());
        assert(vals + Seq::<Seq<T>>::empty() =~~= vals);
    }
    Ok(out)
}

/// Decoding undoes encoding for every matrix without an empty row.
///
/// A matrix with an empty row has no faithful cell text: `[[]]` would
/// encode to the empty string, which is reserved for the empty matrix.
pub proof fn lemma_round_trip<T: Scalar>(m: Seq<Seq<T>>)
    requires
        forall|i: int| 0 <= i < m.len() ==> (#[trigger] m[i]).len() > 0,
    ensures
        decoded::<T>(encoded::<T>(m)) == Some(m),
        m.len() > 0 ==> encoded::<T>(m).len() > 0,
{
    let parts = m.map_values(|row: Seq<T>| crate::vec_num::encoded::<T>(row));
    if m.len() == 0 {
        assert(encoded::<T>(m).len() == 0);
    } else {
        lemma_rows_pipe_free::<T>(m);
        assert forall|i: int, j: int|
            0 <= i < parts.len() && 0 <= j < parts[i].len() implies parts[i][j] != '|' by {
            assert(parts[i] == crate::vec_num::encoded::<T>(m[i]));
        }
        assert(parts[0] == crate::vec_num::encoded::<T>(m[0]));
        crate::vec_num::lemma_empty_canonical::<T>(m[0]);
        lemma_join_nonempty(parts, '|');
        lemma_split_join(parts, '|');
        lemma_parse_rows_encoded::<T>(m);
    }
}

/// The empty string is the one cell text of the empty matrix.
pub proof fn lemma_empty_canonical<T: Scalar>()
    ensures
        encoded::<T>(Seq::<Seq<T>>::empty()) == Seq::<char>::empty(),
        decoded::<T>(Seq::empty()) == Some(Seq::<Seq<T>>::empty()),
{
    assert(Seq::<Seq<T>>::empty().map_values(|row: Seq<T>| crate::vec_num::encoded::<T>(row)).len()
        == 0);
}

/// A non-empty cell never decodes to the empty matrix.
pub proof fn lemma_nonempty_cell<T: Scalar>(s: Seq<char>)
    ensures
        s.len() > 0 ==> match decoded::<T>(s) {
            Some(m) => m.len() > 0,
            None => true,
        },
{
    if s.len() > 0 {
        lemma_split_len(s, '|');
    }
}

/// A list cell never contains the row separator; a cell for two or more
/// rows always does. The two codecs cannot produce the same text, however
/// the rows group the same numbers: `[[1], [2]]` gives `"1|2"`, while the
/// flat list `[1, 2]` gives `"1_2"`.
pub proof fn lemma_delimiter_distinction<T: Scalar>(l: Seq<T>, m: Seq<Seq<T>>)
    requires
        m.len() >= 2,
    ensures
        !crate::vec_num::encoded::<T>(l).contains('|'),
        encoded::<T>(m).contains('|'),
        crate::vec_num::encoded::<T>(l) != encoded::<T>(m),
{
    let cell = crate::vec_num::encoded::<T>(l);
    let texts = l.map_values(|t: T| t.text());
    lemma_texts_wf::<T>(l);
    assert forall|a: int, b: int|
        0 <= a < texts.len() && 0 <= b < texts[a].len() implies texts[a][b] != '|' by {
        assert(texts[a] == l[a].text());
        assert(scalar_char(texts[a][b]));
        lemma_scalar_char_not_sep(texts[a][b]);
    }
    lemma_join_free_of(texts, '_', '|');
    if cell.contains('|') {
        let k = choose|k: int| 0 <= k < cell.len() && cell[k] == '|';
        assert(cell[k] != '|');
    }
    let parts = m.map_values(|row: Seq<T>| crate::vec_num::encoded::<T>(row));
    lemma_join_has_sep(parts, '|');
}

} // verus!
