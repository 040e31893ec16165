//! Splitting and joining cell text on a single-character separator.
//!
//! `join_with` and `split_on` are the spec-level model shared by all codecs;
//! `split_str` is the verified executable splitter. Splitting is total: a
//! string with `n` occurrences of the separator always yields `n + 1` parts,
//! so the empty string yields one empty part, never zero parts. The codecs
//! therefore treat the empty string as a special case before splitting.

use vstd::prelude::*;

verus! {

/// The index of the first occurrence of `sep` in `s`, or `s.len()` if absent.
pub open spec fn find_char(s: Seq<char>, sep: char) -> int
    decreases s.len(),
{
    if s.len() == 0 {
        0
    } else if s[0] == sep {
        0
    } else {
        1 + find_char(s.drop_first(), sep)
    }
}

/// The parts of `s` delimited by `sep`, in order. Always at least one part.
pub open spec fn split_on(s: Seq<char>, sep: char) -> Seq<Seq<char>>
    decreases s.len(),
{
    if s.len() == 0 {
        seq![Seq::<char>::empty()]
    } else {
        let rest = split_on(s.drop_first(), sep);
        if s[0] == sep {
            seq![Seq::<char>::empty()] + rest
        } else {
            seq![seq![s[0]] + rest[0]] + rest.drop_first()
        }
    }
}

/// The parts concatenated in order, with `sep` between adjacent parts.
pub open spec fn join_with(parts: Seq<Seq<char>>, sep: char) -> Seq<char>
    decreases parts.len(),
{
    if parts.len() == 0 {
        Seq::empty()
    } else if parts.len() == 1 {
        parts[0]
    } else {
        parts[0] + seq![sep] + join_with(parts.drop_first(), sep)
    }
}

/// Splitting always yields at least one part.
pub proof fn lemma_split_len(s: Seq<char>, sep: char)
    ensures
        split_on(s, sep).len() >= 1,
    decreases s.len(),
{
    if s.len() > 0 {
        lemma_split_len(s.drop_first(), sep);
    }
}

/// `find_char` returns the first occurrence: nothing before it matches,
/// and it points at a match unless there is none.
pub proof fn lemma_find_char(s: Seq<char>, sep: char)
    ensures
        0 <= find_char(s, sep) <= s.len(),
        forall|i: int| 0 <= i < find_char(s, sep) ==> s[i] != sep,
        find_char(s, sep) < s.len() ==> s[find_char(s, sep)] == sep,
        find_char(s, sep) == s.len() ==> !s.contains(sep),
    decreases s.len(),
{
    if s.len() == 0 {
    } else if s[0] == sep {
    } else {
        lemma_find_char(s.drop_first(), sep);
        let k = find_char(s, sep);
        assert forall|i: int| 0 <= i < k implies s[i] != sep by {
            if i > 0 {
                assert(s.drop_first()[i - 1] == s[i]);
            }
        }
        if k == s.len() && s.contains(sep) {
            let w = choose|w: int| 0 <= w < s.len() && s[w] == sep;
            assert(s.drop_first()[w - 1] == s[w]);
        }
    }
}

/// Any position with no match before it and a match (or the end) at it
/// is the position `find_char` returns.
pub proof fn lemma_find_char_is(s: Seq<char>, sep: char, k: int)
    requires
        0 <= k <= s.len(),
        forall|i: int| 0 <= i < k ==> s[i] != sep,
        k < s.len() ==> s[k] == sep,
    ensures
        find_char(s, sep) == k,
    decreases s.len(),
{
    if k == 0 {
    } else {
        assert(s[0] != sep);
        assert forall|i: int| 0 <= i < k - 1 implies s.drop_first()[i] != sep by {
            assert(s.drop_first()[i] == s[i + 1]);
        }
        if k - 1 < s.drop_first().len() {
            assert(s.drop_first()[k - 1] == s[k]);
        }
        lemma_find_char_is(s.drop_first(), sep, k - 1);
    }
}

/// A string free of the separator is a single part.
pub proof fn lemma_split_sep_free(s: Seq<char>, sep: char)
    requires
        forall|i: int| 0 <= i < s.len() ==> s[i] != sep,
    ensures
        split_on(s, sep) == seq![s],
    decreases s.len(),
{
    if s.len() == 0 {
        assert(split_on(s, sep) =~~= seq![s]);
    } else {
        assert forall|i: int| 0 <= i < s.drop_first().len() implies s.drop_first()[i] != sep by {
            assert(s.drop_first()[i] == s[i + 1]);
        }
        lemma_split_sep_free(s.drop_first(), sep);
        assert(seq![s[0]] + s.drop_first() =~= s);
        assert(split_on(s, sep) =~~= seq![s]);
    }
}

/// Splitting at the first separator: a separator-free prefix becomes the
/// first part, and the text after the separator splits on its own.
pub proof fn lemma_split_at_sep(a: Seq<char>, b: Seq<char>, sep: char)
    requires
        forall|i: int| 0 <= i < a.len() ==> a[i] != sep,
    ensures
        split_on(a + seq![sep] + b, sep) == seq![a] + split_on(b, sep),
    decreases a.len(),
{
    let s = a + seq![sep] + b;
    if a.len() == 0 {
        assert(s[0] == sep);
        assert(s.drop_first() =~= b);
        assert(split_on(s, sep) =~~= seq![a] + split_on(b, sep));
    } else {
        assert(s[0] == a[0]);
        assert(s.drop_first() =~= a.drop_first() + seq![sep] + b);
        assert forall|i: int| 0 <= i < a.drop_first().len() implies a.drop_first()[i] != sep by {
            assert(a.drop_first()[i] == a[i + 1]);
        }
        lemma_split_at_sep(a.drop_first(), b, sep);
        let rest = split_on(s.drop_first(), sep);
        assert(rest == seq![a.drop_first()] + split_on(b, sep));
        assert(rest[0] == a.drop_first());
        assert(seq![s[0]] + rest[0] =~= a);
        assert(rest.drop_first() =~~= split_on(b, sep));
        assert(split_on(s, sep) =~~= seq![a] + split_on(b, sep));
    }
}

/// Splitting undoes joining, as long as no part contains the separator.
pub proof fn lemma_split_join(parts: Seq<Seq<char>>, sep: char)
    requires
        parts.len() >= 1,
        forall|i: int, j: int|
            0 <= i < parts.len() && 0 <= j < parts[i].len() ==> parts[i][j] != sep,
    ensures
        split_on(join_with(parts, sep), sep) == parts,
    decreases parts.len(),
{
    if parts.len() == 1 {
        lemma_split_sep_free(parts[0], sep);
        assert(split_on(join_with(parts, sep), sep) =~~= parts);
    } else {
        let rest = parts.drop_first();
        assert forall|i: int, j: int|
            0 <= i < rest.len() && 0 <= j < rest[i].len() implies rest[i][j] != sep by {
            assert(rest[i] == parts[i + 1]);
        }
        lemma_split_join(rest, sep);
        lemma_split_at_sep(parts[0], join_with(rest, sep), sep);
        assert(seq![parts[0]] + rest =~~= parts);
    }
}

/// Joining one more part on the right.
pub proof fn lemma_join_push(parts: Seq<Seq<char>>, p: Seq<char>, sep: char)
    ensures
        join_with(parts.push(p), sep) == if parts.len() == 0 {
            p
        } else {
            join_with(parts, sep) + seq![sep] + p
        },
    decreases parts.len(),
{
    let whole = parts.push(p);
    if parts.len() == 0 {
        assert(whole.len() == 1);
        assert(whole[0] == p);
    } else if parts.len() == 1 {
        assert(whole[0] == parts[0]);
        assert(whole.drop_first() =~= seq![p]);
        assert(join_with(whole.drop_first(), sep) == p);
    } else {
        assert(whole[0] == parts[0]);
        assert(whole.drop_first() =~= parts.drop_first().push(p));
        lemma_join_push(parts.drop_first(), p, sep);
        assert(join_with(whole, sep) == parts[0] + seq![sep] + (join_with(parts.drop_first(), sep)
            + seq![sep] + p));
        assert(parts[0] + seq![sep] + (join_with(parts.drop_first(), sep) + seq![sep] + p) =~= (
        parts[0] + seq![sep] + join_with(parts.drop_first(), sep)) + seq![sep] + p);
    }
}

/// A joined string contains no character that is absent from every part
/// and differs from the separator.
pub proof fn lemma_join_free_of(parts: Seq<Seq<char>>, sep: char, c: char)
    requires
        c != sep,
        forall|i: int, j: int|
            0 <= i < parts.len() && 0 <= j < parts[i].len() ==> parts[i][j] != c,
    ensures
        forall|k: int| 0 <= k < join_with(parts, sep).len() ==> join_with(parts, sep)[k] != c,
    decreases parts.len(),
{
    if parts.len() == 0 {
    } else if parts.len() == 1 {
        assert forall|k: int| 0 <= k < join_with(parts, sep).len() implies join_with(
            parts,
            sep,
        )[k] != c by {
            assert(join_with(parts, sep)[k] == parts[0][k]);
        }
    } else {
        let rest = parts.drop_first();
        assert forall|i: int, j: int|
            0 <= i < rest.len() && 0 <= j < rest[i].len() implies rest[i][j] != c by {
            assert(rest[i] == parts[i + 1]);
        }
        lemma_join_free_of(rest, sep, c);
        let head = parts[0];
        let tail = join_with(rest, sep);
        let whole = join_with(parts, sep);
        assert(whole == head + seq![sep] + tail);
        assert forall|k: int| 0 <= k < whole.len() implies whole[k] != c by {
            if k < head.len() {
                assert(whole[k] == head[k]);
            } else if k == head.len() {
                assert(whole[k] == sep);
            } else {
                assert(whole[k] == tail[k - head.len() - 1]);
            }
        }
    }
}

/// Joining two or more parts always places a separator in the result.
pub proof fn lemma_join_has_sep(parts: Seq<Seq<char>>, sep: char)
    requires
        parts.len() >= 2,
    ensures
        join_with(parts, sep).contains(sep),
{
    let whole = join_with(parts, sep);
    assert(whole == parts[0] + seq![sep] + join_with(parts.drop_first(), sep));
    assert(whole[parts[0].len() as int] == sep);
}

/// A join of parts whose first part is non-empty is non-empty.
pub proof fn lemma_join_nonempty(parts: Seq<Seq<char>>, sep: char)
    requires
        parts.len() >= 1,
        parts[0].len() > 0,
    ensures
        join_with(parts, sep).len() > 0,
{
    if parts.len() == 1 {
    } else {
        assert(join_with(parts, sep) == parts[0] + seq![sep] + join_with(
            parts.drop_first(),
            sep,
        ));
    }
}

/// The index of the first occurrence of `sep` in `s`, or the length of `s`.
pub fn find_in_str(s: &str, sep: char) -> (r: usize)
    ensures
        r as int == find_char(s@, sep),
{
    let n = s.unicode_len();
    let mut i: usize = 0;
    while i < n
        invariant
            i <= n,
            n == s@.len(),
            forall|j: int| 0 <= j < i ==> s@[j] != sep,
        decreases n - i,
    {
        if s.get_char(i) == sep {
            proof {
                lemma_find_char_is(s@, sep, i as int);
            }
            return i;
        }
        i += 1;
    }
    proof {
        lemma_find_char_is(s@, sep, n as int);
    }
    n
}

/// Split `s` on `sep`, returning the parts in order.
pub fn split_str(s: &str, sep: char) -> (r: Vec<String>)
    ensures
        r@.map_values(|t: String| t@) == split_on(s@, sep),
        r@.len() >= 1,
{
    let n = s.unicode_len();
    let mut r: Vec<String> = Vec::new();
    let mut start: usize = 0;
    let mut j: usize = 0;
    proof {
        assert(s@.skip(0) =~= s@);
        assert(r@.map_values(|t: String| t@) + split_on(s@, sep) =~~= split_on(s@, sep));
    }
    while j < n
        invariant
            start <= j <= n,
            n == s@.len(),
            forall|k: int| start <= k < j ==> s@[k] != sep,
            split_on(s@, sep) == r@.map_values(|t: String| t@) + split_on(
                s@.skip(start as int),
                sep,
            ),
        decreases n - j,
    {
        let c = s.get_char(j);
        if c == sep {
            let tok = s.substring_char(start, j).to_owned();
            proof {
                let a = s@.subrange(start as int, j as int);
                assert(s@.skip(start as int) =~= a + seq![sep] + s@.skip(j as int + 1));
                assert forall|k: int| 0 <= k < a.len() implies a[k] != sep by {
                    assert(a[k] == s@[start + k]);
                }
                lemma_split_at_sep(a, s@.skip(j as int + 1), sep);
                assert(r@.push(tok).map_values(|t: String| t@) =~~= r@.map_values(
                    |t: String| t@,
                ).push(tok@));
                assert(r@.map_values(|t: String| t@) + (seq![a] + split_on(
                    s@.skip(j as int + 1),
                    sep,
                )) =~~= r@.map_values(|t: String| t@).push(a) + split_on(
                    s@.skip(j as int + 1),
                    sep,
                ));
            }
            r.push(tok);
            start = j + 1;
        }
        j += 1;
    }
    let tok = s.substring_char(start, n).to_owned();
    proof {
        let a = s@.subrange(start as int, n as int);
        assert(s@.skip(start as int) =~= a);
        assert forall|k: int| 0 <= k < a.len() implies a[k] != sep by {
            assert(a[k] == s@[start + k]);
        }
        lemma_split_sep_free(a, sep);
        assert(r@.push(tok).map_values(|t: String| t@) =~~= r@.map_values(|t: String| t@).push(
            tok@,
        ));
        assert(r@.map_values(|t: String| t@) + seq![a] =~~= r@.map_values(|t: String| t@).push(a));
    }
    r.push(tok);
    r
}

} // verus!
