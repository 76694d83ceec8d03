//! Character-sequence text utilities: splitting on a separator, substring
//! containment, and case-insensitive matching.

use vstd::prelude::*;

verus! {

/// The fields of `s` when it is cut at every occurrence of `sep`: always at
/// least one field, and an empty `s` gives one empty field, as `str::split`
/// behaves.
pub open spec fn split_seq(s: Seq<char>, sep: char) -> Seq<Seq<char>>
    decreases s.len(),
{
    if s.len() == 0 {
        seq![Seq::<char>::empty()]
    } else if s[0] == sep {
        seq![Seq::<char>::empty()] + split_seq(s.drop_first(), sep)
    } else {
        let rest = split_seq(s.drop_first(), sep);
        seq![seq![s[0]] + rest[0]] + rest.drop_first()
    }
}

/// Splitting always yields at least one field.
pub proof fn lemma_split_len_pos(s: Seq<char>, sep: char)
    ensures
        split_seq(s, sep).len() >= 1,
    decreases s.len(),
{
    if s.len() != 0 {
        lemma_split_len_pos(s.drop_first(), sep);
    }
}

/// How splitting changes when one character is appended: a separator opens a
/// new empty field; any other character extends the last field.
pub proof fn lemma_split_push(s: Seq<char>, c: char, sep: char)
    ensures
        c == sep ==> split_seq(s.push(c), sep) == split_seq(s, sep).push(Seq::<char>::empty()),
        c != sep ==> split_seq(s.push(c), sep) == split_seq(s, sep).update(
            split_seq(s, sep).len() - 1,
            split_seq(s, sep).last().push(c),
        ),
    decreases s.len(),
{
    lemma_split_len_pos(s, sep);
    if s.len() == 0 {
        let t = s.push(c);
        assert(t.len() == 1 && t[0] == c);
        assert(t.drop_first() =~= Seq::<char>::empty());
        if c == sep {
            assert(split_seq(t.drop_first(), sep) == seq![Seq::<char>::empty()]);
            assert(split_seq(t, sep) == seq![Seq::<char>::empty()] + split_seq(
                t.drop_first(),
                sep,
            ));
            assert(split_seq(t, sep) =~~= split_seq(s, sep).push(Seq::<char>::empty()));
        } else {
            let rest = split_seq(t.drop_first(), sep);
            assert(rest == seq![Seq::<char>::empty()]);
            assert(seq![c] + rest[0] =~= seq![c]);
            assert(split_seq(t, sep) =~~= split_seq(s, sep).update(0, split_seq(s, sep).last().push(c)));
        }
    } else {
        let t = s.push(c);
        assert(t[0] == s[0]);
        assert(t.drop_first() =~= s.drop_first().push(c));
        lemma_split_push(s.drop_first(), c, sep);
        lemma_split_len_pos(s.drop_first(), sep);
        let r = split_seq(s.drop_first(), sep);
        let rt = split_seq(t.drop_first(), sep);
        if s[0] == sep {
            if c == sep {
                assert(rt == r.push(Seq::<char>::empty()));
                assert(split_seq(t, sep) =~~= split_seq(s, sep).push(Seq::<char>::empty()));
            } else {
                assert(rt == r.update(r.len() - 1, r.last().push(c)));
                assert(split_seq(s, sep).last() == r.last());
                assert(split_seq(t, sep) =~~= split_seq(s, sep).update(
                    split_seq(s, sep).len() - 1,
                    split_seq(s, sep).last().push(c),
                ));
            }
        } else {
            if c == sep {
                assert(rt == r.push(Seq::<char>::empty()));
                assert(rt[0] == r[0]);
                assert(rt.drop_first() =~~= r.drop_first().push(Seq::<char>::empty()));
                assert(split_seq(t, sep) =~~= split_seq(s, sep).push(Seq::<char>::empty()));
            } else {
                assert(rt == r.update(r.len() - 1, r.last().push(c)));
                if r.len() == 1 {
                    assert(rt[0] == r[0].push(c));
                    assert(rt.drop_first() =~~= r.drop_first());
                    assert(split_seq(s, sep).len() == 1);
                    assert(split_seq(s, sep).last() == seq![s[0]] + r[0]);
                    assert((seq![s[0]] + r[0].push(c)) =~= (seq![s[0]] + r[0]).push(c));
                    assert(split_seq(t, sep) =~~= split_seq(s, sep).update(
                        split_seq(s, sep).len() - 1,
                        split_seq(s, sep).last().push(c),
                    ));
                } else {
                    assert(rt[0] == r[0]);
                    assert(rt.drop_first() =~~= r.drop_first().update(r.len() - 2, r.last().push(c)));
                    assert(split_seq(s, sep).last() == r.last());
                    assert(split_seq(t, sep) =~~= split_seq(s, sep).update(
                        split_seq(s, sep).len() - 1,
                        split_seq(s, sep).last().push(c),
                    ));
                }
            }
        }
    }
}

/// A text without the separator splits into that one field.
pub proof fn lemma_split_no_sep(s: Seq<char>, sep: char)
    requires
        forall|i: int| 0 <= i < s.len() ==> #[trigger] s[i] != sep,
    ensures
        split_seq(s, sep) == seq![s],
    decreases s.len(),
{
    if s.len() == 0 {
        assert(split_seq(s, sep) =~~= seq![s]);
    } else {
        lemma_split_no_sep(s.drop_first(), sep);
        assert(seq![s[0]] + s.drop_first() =~= s);
        assert(split_seq(s, sep) =~~= seq![s]);
    }
}

/// Cutting off a separator-free prefix: the prefix is the first field, and
/// the rest splits on its own.
pub proof fn lemma_split_prefix(l: Seq<char>, rest: Seq<char>, sep: char)
    requires
        forall|i: int| 0 <= i < l.len() ==> #[trigger] l[i] != sep,
    ensures
        split_seq(l + seq![sep] + rest, sep) == seq![l] + split_seq(rest, sep),
    decreases l.len(),
{
    let s = l + seq![sep] + rest;
    if l.len() == 0 {
        assert(s[0] == sep);
        assert(s.drop_first() =~= rest);
        assert(split_seq(s, sep) =~~= seq![l] + split_seq(rest, sep));
    } else {
        assert(s[0] == l[0]);
        assert(s[0] != sep);
        assert(s.drop_first() =~= l.drop_first() + seq![sep] + rest);
        lemma_split_prefix(l.drop_first(), rest, sep);
        let r = split_seq(s.drop_first(), sep);
        assert(r == seq![l.drop_first()] + split_seq(rest, sep));
        assert(r[0] == l.drop_first());
        assert(seq![s[0]] + r[0] =~= l);
        assert(r.drop_first() =~~= split_seq(rest, sep));
        assert(split_seq(s, sep) =~~= seq![l] + split_seq(rest, sep));
    }
}

/// Splits a string at every occurrence of `sep`, exactly as `split_seq`
/// describes the result.
pub fn split_str(s: &str, sep: char) -> (r: Vec<String>)
    ensures
        r@.map_values(|t: String| t@) == split_seq(s@, sep),
{
    let n = s.unicode_len();
    let mut r: Vec<String> = Vec::new();
    let mut field_start: usize = 0;
    let mut i: usize = 0;
    proof {
        assert(s@.take(0) =~= Seq::<char>::empty());
        assert(split_seq(s@.take(0), sep) =~~= r@.map_values(|t: String| t@).push(
            s@.subrange(0, 0),
        ));
    }
    while i < n
        invariant
            0 <= field_start <= i <= n,
            n == s@.len(),
            split_seq(s@.take(i as int), sep) == r@.map_values(|t: String| t@).push(
                s@.subrange(field_start as int, i as int),
            ),
        decreases n - i,
    {
        let c = s.get_char(i);
        proof {
            assert(s@.take(i + 1) =~= s@.take(i as int).push(s@[i as int]));
            lemma_split_push(s@.take(i as int), s@[i as int], sep);
        }
        if c == sep {
            let f = s.substring_char(field_start, i);
            let fs = String::from_str(f);
            let ghost before = r@.map_values(|t: String| t@);
            r.push(fs);
            proof {
                assert(r@.map_values(|t: String| t@) =~~= before.push(fs@));
            }
            i += 1;
            field_start = i;
            proof {
                assert(s@.subrange(field_start as int, i as int) =~= Seq::<char>::empty());
                assert(split_seq(s@.take(i as int), sep) =~~= r@.map_values(|t: String| t@).push(
                    s@.subrange(field_start as int, i as int),
                ));
            }
        } else {
            i += 1;
            proof {
                assert(s@.subrange(field_start as int, i as int) =~= s@.subrange(
                    field_start as int,
                    i - 1,
                ).push(s@[i - 1]));
                assert(split_seq(s@.take(i as int), sep) =~~= r@.map_values(|t: String| t@).push(
                    s@.subrange(field_start as int, i as int),
                ));
            }
        }
    }
    let f = s.substring_char(field_start, n);
    let fs = String::from_str(f);
    let ghost before = r@.map_values(|t: String| t@);
    r.push(fs);
    proof {
        assert(s@.take(n as int) =~= s@);
        assert(r@.map_values(|t: String| t@) =~~= before.push(fs@));
        assert(r@.map_values(|t: String| t@) =~~= split_seq(s@, sep));
    }
    r
}

/// Does `needle` occur as a contiguous run of characters inside `hay`?
pub open spec fn contains_seq(hay: Seq<char>, needle: Seq<char>) -> bool {
    exists|i: int|
        0 <= i <= hay.len() - needle.len() && #[trigger] hay.subrange(i, i + needle.len())
            == needle
}

/// The Unicode lowercase form of a character sequence, as `str::to_lowercase`
/// computes it; a function of the characters alone.
pub uninterp spec fn lower_of(s: Seq<char>) -> Seq<char>;

/// Relies on `str::to_lowercase`: returns the lowercase equivalent of the
/// string, a value depending only on its characters.
#[verifier::external_body]
pub(crate) fn lowercase(s: &str) -> (r: String)
    ensures
        r@ == lower_of(s@),
{
    s.to_lowercase()
}

/// Does `needle` occur at position `i` of `hay`?
fn match_at(hay: &str, needle: &str, i: usize) -> (r: bool)
    requires
        i + needle@.len() <= hay@.len() <= usize::MAX,
    ensures
        r == (hay@.subrange(i as int, i + needle@.len()) == needle@),
{
    let nl = needle.unicode_len();
    let ghost window = hay@.subrange(i as int, i + needle@.len());
    let mut k: usize = 0;
    while k < nl
        invariant
            0 <= k <= nl,
            nl == needle@.len(),
            i + nl <= hay@.len() <= usize::MAX,
            window == hay@.subrange(i as int, i + needle@.len()),
            forall|t: int| 0 <= t < k ==> #[trigger] hay@[i + t] == needle@[t],
        decreases nl - k,
    {
        if hay.get_char(i + k) != needle.get_char(k) {
            proof {
                assert(window[k as int] == hay@[i + k]);
                assert(window != needle@);
            }
            return false;
        }
        k += 1;
    }
    proof {
        assert forall|t: int| 0 <= t < needle@.len() implies window[t] == needle@[t] by {
            assert(hay@[i + t] == needle@[t]);
            assert(window[t] == hay@[i + t]);
        }
        assert(window =~= needle@);
    }
    true
}

/// True exactly when `needle` occurs as a substring of `hay`.
pub(crate) fn contains_str(hay: &str, needle: &str) -> (r: bool)
    ensures
        r == contains_seq(hay@, needle@),
{
    let hl = hay.unicode_len();
    let nl = needle.unicode_len();
    if nl > hl {
        return false;
    }
    if nl == 0 {
        proof {
            assert(hay@.subrange(0, 0 + needle@.len() as int) =~= needle@);
        }
        return true;
    }
    let mut i: usize = 0;
    while i <= hl - nl
        invariant
            hl == hay@.len(),
            nl == needle@.len(),
            1 <= nl <= hl,
            0 <= i <= hl - nl + 1,
            forall|j: int|
                0 <= j < i ==> #[trigger] hay@.subrange(j, j + needle@.len()) != needle@,
        decreases hl - i,
    {
        if match_at(hay, needle, i) {
            proof {
                assert(hay@.subrange(i as int, i + needle@.len()) == needle@);
            }
            return true;
        }
        i += 1;
    }
    proof {
        if contains_seq(hay@, needle@) {
            let j = choose|j: int|
                0 <= j <= hay@.len() - needle@.len() && #[trigger] hay@.subrange(
                    j,
                    j + needle@.len(),
                ) == needle@;
            assert(j < i);
            assert(false);
        }
    }
    false
}

} // verus!
