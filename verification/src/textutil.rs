//! Character-level text helpers: equality, splitting and joining on a
//! separator character, and whitespace tests.
//!
//! Everything here is executable code verified against spec functions over
//! `Seq<char>`; no outside crate is involved.

use vstd::prelude::*;
use vstd::string::*;

verus! {

/// Index of the first occurrence of `sep` in `s`, or -1 when absent.
pub open spec fn first_sep(s: Seq<char>, sep: char) -> int
    decreases s.len(),
{
    if s.len() == 0 {
        -1
    } else if s[0] == sep {
        0
    } else {
        let r = first_sep(s.drop_first(), sep);
        if r < 0 {
            -1
        } else {
            r + 1
        }
    }
}

/// `first_sep` really is the least index holding `sep`, or -1 when none does.
pub proof fn lemma_first_sep(s: Seq<char>, sep: char)
    ensures
        first_sep(s, sep) == -1 ==> (forall|j: int| 0 <= j < s.len() ==> s[j] != sep),
        first_sep(s, sep) >= 0 ==> {
            &&& first_sep(s, sep) < s.len()
            &&& s[first_sep(s, sep)] == sep
            &&& forall|j: int| 0 <= j < first_sep(s, sep) ==> s[j] != sep
        },
    decreases s.len(),
{
    if s.len() > 0 && s[0] != sep {
        lemma_first_sep(s.drop_first(), sep);
        let r = first_sep(s.drop_first(), sep);
        assert(forall|j: int| 0 <= j < s.drop_first().len() ==> s.drop_first()[j] == s[j + 1]);
        if r >= 0 {
            assert(s[r + 1] == sep);
            assert(forall|j: int| 1 <= j < r + 1 ==> s[j] == s.drop_first()[j - 1]);
        } else {
            assert(forall|j: int| 1 <= j < s.len() ==> s[j] == s.drop_first()[j - 1]);
        }
    }
}

/// The segments of `s` delimited by `sep`; always at least one segment.
pub open spec fn spec_split(s: Seq<char>, sep: char) -> Seq<Seq<char>>
    decreases s.len(),
{
    let i = first_sep(s, sep);
    if i < 0 {
        seq![s]
    } else if 0 <= i < s.len() {
        seq![s.take(i)] + spec_split(s.skip(i + 1), sep)
    } else {
        seq![s]
    }
}

/// `s` joined back together: the segments with `sep` between them.
pub open spec fn spec_join(parts: Seq<Seq<char>>, sep: char) -> Seq<char>
    decreases parts.len(),
{
    if parts.len() == 0 {
        Seq::empty()
    } else if parts.len() == 1 {
        parts[0]
    } else {
        spec_join(parts.drop_last(), sep) + seq![sep] + parts.last()
    }
}

/// Character-by-character string equality.
pub fn str_eq(a: &str, b: &str) -> (r: bool)
    ensures
        r == (a@ == b@),
{
    let na = a.unicode_len();
    let nb = b.unicode_len();
    if na != nb {
        assert(a@ != b@) by {
            assert(a@.len() != b@.len());
        }
        return false;
    }
    let mut i: usize = 0;
    while i < na
        invariant
            i <= na,
            na == a@.len(),
            na == b@.len(),
            forall|j: int| 0 <= j < i ==> a@[j] == b@[j],
        decreases na - i,
    {
        if a.get_char(i) != b.get_char(i) {
            return false;
        }
        i += 1;
    }
    proof {
        assert(a@ =~= b@);
    }
    true
}

/// Equality of two owned strings, by their characters.
pub fn string_eq(a: &String, b: &String) -> (r: bool)
    ensures
        r == (a@ == b@),
{
    str_eq(a.as_str(), b.as_str())
}

/// Do the characters of `p` open `s`?
pub open spec fn spec_has_prefix(s: Seq<char>, p: Seq<char>) -> bool {
    p.len() <= s.len() && s.take(p.len() as int) == p
}

/// Does the literal open the text?
pub fn has_prefix_text(s: &str, p: &str) -> (r: bool)
    ensures
        r == spec_has_prefix(s@, p@),
{
    let n = s.unicode_len();
    let m = p.unicode_len();
    if m > n {
        return false;
    }
    let mut j: usize = 0;
    while j < m
        invariant
            j <= m,
            m == p@.len(),
            n == s@.len(),
            m <= n,
            forall|q: int| 0 <= q < j ==> s@[q] == p@[q],
        decreases m - j,
    {
        if s.get_char(j) != p.get_char(j) {
            assert(s@.take(p@.len() as int)[j as int] != p@[j as int]);
            return false;
        }
        j += 1;
    }
    proof {
        assert(s@.take(p@.len() as int) =~= p@);
    }
    true
}

/// The Unicode white-space characters: the set that trimming removes.
pub open spec fn is_space_char(c: char) -> bool {
    let v = c as int;
    v == 0x9 || v == 0xa || v == 0xb || v == 0xc || v == 0xd || v == 0x20 || v == 0x85 || v == 0xa0
        || v == 0x1680 || (0x2000 <= v && v <= 0x200a) || v == 0x2028 || v == 0x2029 || v == 0x202f
        || v == 0x205f || v == 0x3000
}

/// All characters of `s` are whitespace.
pub open spec fn spec_blank(s: Seq<char>) -> bool {
    forall|j: int| 0 <= j < s.len() ==> is_space_char(s[j])
}

/// True when `s` is empty or holds only whitespace.
pub fn is_blank(s: &str) -> (r: bool)
    ensures
        r == spec_blank(s@),
{
    let n = s.unicode_len();
    let mut i: usize = 0;
    while i < n
        invariant
            i <= n,
            n == s@.len(),
            forall|j: int| 0 <= j < i ==> is_space_char(s@[j]),
        decreases n - i,
    {
        let c = s.get_char(i);
        let v = c as u32;
        let space = v == 0x9 || v == 0xa || v == 0xb || v == 0xc || v == 0xd || v == 0x20 || v
            == 0x85 || v == 0xa0 || v == 0x1680 || (0x2000 <= v && v <= 0x200a) || v == 0x2028 || v
            == 0x2029 || v == 0x202f || v == 0x205f || v == 0x3000;
        if !space {
            return false;
        }
        i += 1;
    }
    true
}

/// When the first `sep` of `t` stands at `k`, splitting peels off `t.take(k)`.
proof fn lemma_split_at_first(t: Seq<char>, sep: char, k: int)
    requires
        0 <= k < t.len(),
        t[k] == sep,
        forall|j: int| 0 <= j < k ==> t[j] != sep,
    ensures
        spec_split(t, sep) == seq![t.take(k)] + spec_split(t.skip(k + 1), sep),
{
    lemma_first_sep(t, sep);
    let i = first_sep(t, sep);
    if i == -1 {
        assert(t[k] != sep);
        assert(false);
    }
    if i < k {
        assert(t[i] != sep);
        assert(false);
    }
    if i > k {
        assert(t[k] != sep);
        assert(false);
    }
}

/// When `sep` does not occur in `t`, `t` is its own single segment.
proof fn lemma_split_none(t: Seq<char>, sep: char)
    requires
        forall|j: int| 0 <= j < t.len() ==> t[j] != sep,
    ensures
        spec_split(t, sep) == seq![t],
{
    lemma_first_sep(t, sep);
    let i = first_sep(t, sep);
    if i >= 0 {
        assert(t[i] != sep);
        assert(false);
    }
}

/// The join of two or more parts starts with the first part, the
/// separator, and the join of the rest.
proof fn lemma_join_front(parts: Seq<Seq<char>>, sep: char)
    requires
        parts.len() >= 2,
    ensures
        spec_join(parts, sep) == parts[0] + seq![sep] + spec_join(parts.drop_first(), sep),
    decreases parts.len(),
{
    if parts.len() == 2 {
        assert(parts.drop_last() =~= seq![parts[0]]);
        assert(spec_join(seq![parts[0]], sep) == parts[0]);
        assert(parts.drop_first() =~= seq![parts[1]]);
        assert(spec_join(seq![parts[1]], sep) == parts[1]);
        assert(parts.last() == parts[1]);
    } else {
        let dl = parts.drop_last();
        lemma_join_front(dl, sep);
        assert(dl[0] == parts[0]);
        let pdf = parts.drop_first();
        assert(dl.drop_first() =~= pdf.drop_last());
        assert(pdf.len() >= 2);
        assert(spec_join(pdf, sep) == spec_join(pdf.drop_last(), sep) + seq![sep] + pdf.last());
        assert(pdf.last() == parts.last());
        assert((parts[0] + seq![sep] + spec_join(pdf.drop_last(), sep)) + seq![sep] + parts.last()
            =~= parts[0] + seq![sep] + (spec_join(pdf.drop_last(), sep) + seq![sep]
            + parts.last()));
    }
}

/// In a text built as part, separator, tail — the part free of the
/// separator — the first separator stands right after the part.
proof fn lemma_first_sep_concat(a: Seq<char>, sep: char, tail: Seq<char>)
    requires
        forall|j: int| 0 <= j < a.len() ==> a[j] != sep,
    ensures
        first_sep(a + seq![sep] + tail, sep) == a.len(),
{
    let w = a + seq![sep] + tail;
    lemma_first_sep(w, sep);
    let f = first_sep(w, sep);
    assert(w[a.len() as int] == sep);
    if f == -1 {
        assert(false);
    }
    if f < a.len() {
        assert(w[f] == a[f]);
        assert(false);
    }
    if f > a.len() {
        assert(w[a.len() as int] != sep);
        assert(false);
    }
}

/// Splitting inverts joining, for parts that hold no separator and are not
/// the single empty part.
pub proof fn lemma_split_join(parts: Seq<Seq<char>>, sep: char)
    requires
        parts.len() >= 1,
        forall|i: int, j: int|
            0 <= i < parts.len() && 0 <= j < parts[i].len() ==> #[trigger] parts[i][j] != sep,
    ensures
        spec_split(spec_join(parts, sep), sep) == parts,
    decreases parts.len(),
{
    if parts.len() == 1 {
        assert(spec_join(parts, sep) == parts[0]);
        lemma_split_none(parts[0], sep);
        assert(seq![parts[0]] =~= parts);
    } else {
        lemma_join_front(parts, sep);
        let w = spec_join(parts, sep);
        let rest = spec_join(parts.drop_first(), sep);
        lemma_first_sep_concat(parts[0], sep, rest);
        let k = parts[0].len() as int;
        assert(w[k] == sep);
        assert(forall|j: int| 0 <= j < k ==> w[j] == parts[0][j]);
        lemma_split_at_first(w, sep, k);
        assert(w.take(k) =~= parts[0]);
        assert(w.skip(k + 1) =~= rest);
        assert(forall|i: int, j: int|
            0 <= i < parts.drop_first().len() && 0 <= j < parts.drop_first()[i].len()
                ==> #[trigger] parts.drop_first()[i][j] != sep) by {
            assert(forall|i: int|
                0 <= i < parts.drop_first().len() ==> parts.drop_first()[i] == parts[i + 1]);
        }
        lemma_split_join(parts.drop_first(), sep);
        assert(seq![parts[0]] + parts.drop_first() =~= parts);
    }
}

/// Splits `s` on the separator character.
pub fn split_on(s: &str, sep: char) -> (parts: Vec<String>)
    ensures
        parts.deep_view() == spec_split(s@, sep),
{
    let n = s.unicode_len();
    let mut parts: Vec<String> = Vec::new();
    let mut start: usize = 0;
    let mut i: usize = 0;
    proof {
        assert(s@.skip(0) =~= s@);
        assert(parts.deep_view() =~= Seq::<Seq<char>>::empty());
        assert(parts.deep_view() + spec_split(s@, sep) =~= spec_split(s@, sep));
    }
    while i < n
        invariant
            start <= i <= n,
            n == s@.len(),
            forall|j: int| start <= j < i ==> s@[j] != sep,
            spec_split(s@, sep) == parts.deep_view() + spec_split(s@.skip(start as int), sep),
        decreases n - i,
    {
        if s.get_char(i) == sep {
            let part = s.substring_char(start, i);
            let ghost old_parts = parts.deep_view();
            parts.push(part.to_owned());
            proof {
                let t = s@.skip(start as int);
                let k = i - start;
                assert(t[k] == sep);
                assert(forall|j: int| 0 <= j < k ==> t[j] != sep) by {
                    assert(forall|j: int| 0 <= j < k ==> t[j] == s@[start + j]);
                }
                lemma_split_at_first(t, sep, k);
                assert(t.take(k) =~= s@.subrange(start as int, i as int));
                assert(t.skip(k + 1) =~= s@.skip(i + 1));
                assert(parts.deep_view() =~= old_parts + seq![t.take(k)]);
                assert(old_parts + (seq![t.take(k)] + spec_split(s@.skip(i + 1), sep))
                    =~= parts.deep_view() + spec_split(s@.skip(i + 1), sep));
            }
            start = i + 1;
        }
        i += 1;
    }
    let part = s.substring_char(start, n);
    let ghost old_parts = parts.deep_view();
    parts.push(part.to_owned());
    proof {
        let t = s@.skip(start as int);
        assert(forall|j: int| 0 <= j < t.len() ==> t[j] == s@[start + j]);
        lemma_split_none(t, sep);
        assert(t =~= s@.subrange(start as int, n as int));
        assert(parts.deep_view() =~= old_parts + seq![t]);
    }
    parts
}

/// Joins the parts with the one-character separator `sep`.
pub fn join_with(parts: &Vec<String>, sep: &str) -> (r: String)
    requires
        sep@.len() == 1,
    ensures
        r@ == spec_join(parts.deep_view(), sep@[0]),
{
    let mut r = String::new();
    let n = parts.len();
    let mut i: usize = 0;
    while i < n
        invariant
            i <= n,
            n == parts.len(),
            sep@.len() == 1,
            r@ == spec_join(parts.deep_view().take(i as int), sep@[0]),
        decreases n - i,
    {
        if i > 0 {
            r.append(sep);
        }
        r.append(parts[i].as_str());
        proof {
            let dv = parts.deep_view();
            assert(dv.take(i + 1).drop_last() =~= dv.take(i as int));
            assert(dv.take(i + 1).last() == dv[i as int]);
            if i == 0 {
                assert(r@ =~= spec_join(dv.take(1), sep@[0]));
            }
        }
        i += 1;
    }
    proof {
        assert(parts.deep_view().take(n as int) =~= parts.deep_view());
    }
    r
}

} // verus!
