//! The JSON shape of the splits column: an array of posting objects, each
//! holding the two account paths and the amount. The writer emits one
//! canonical form; the reader is proved to decide and decode exactly the
//! grammar below.

use vstd::prelude::*;
use vstd::string::*;

use crate::account::{spec_account_of, Account};
use crate::numtext::{
    dec_digits, dec_to_u64, dec_value, hex_digit_char, hex_val, is_dec_digit, is_hex_digit,
    u64_to_dec,
};
use crate::record::{Posting, PostingView};
use crate::textutil::spec_join;

verus! {

/// The character with code `v`; meaningful for codes below 0x20.
pub open spec fn low_char(v: int) -> char {
    if v == 0 { '\u{0}' }
    else if v == 1 { '\u{1}' }
    else if v == 2 { '\u{2}' }
    else if v == 3 { '\u{3}' }
    else if v == 4 { '\u{4}' }
    else if v == 5 { '\u{5}' }
    else if v == 6 { '\u{6}' }
    else if v == 7 { '\u{7}' }
    else if v == 8 { '\u{8}' }
    else if v == 9 { '\u{9}' }
    else if v == 10 { '\u{a}' }
    else if v == 11 { '\u{b}' }
    else if v == 12 { '\u{c}' }
    else if v == 13 { '\u{d}' }
    else if v == 14 { '\u{e}' }
    else if v == 15 { '\u{f}' }
    else if v == 16 { '\u{10}' }
    else if v == 17 { '\u{11}' }
    else if v == 18 { '\u{12}' }
    else if v == 19 { '\u{13}' }
    else if v == 20 { '\u{14}' }
    else if v == 21 { '\u{15}' }
    else if v == 22 { '\u{16}' }
    else if v == 23 { '\u{17}' }
    else if v == 24 { '\u{18}' }
    else if v == 25 { '\u{19}' }
    else if v == 26 { '\u{1a}' }
    else if v == 27 { '\u{1b}' }
    else if v == 28 { '\u{1c}' }
    else if v == 29 { '\u{1d}' }
    else if v == 30 { '\u{1e}' }
    else { '\u{1f}' }
}

/// How one character is written inside a JSON string: quotes and
/// backslashes escaped, control characters as \u00xx, all else verbatim.
pub open spec fn json_escape_char(c: char) -> Seq<char> {
    if c == '"' {
        seq!['\\', '"']
    } else if c == '\\' {
        seq!['\\', '\\']
    } else if (c as int) < 0x20 {
        seq!['\\', 'u', '0', '0', hex_digit_char(c as int / 16), hex_digit_char(c as int % 16)]
    } else {
        seq![c]
    }
}

/// A text with every character escaped as JSON requires.
pub open spec fn json_escape(s: Seq<char>) -> Seq<char>
    decreases s.len(),
{
    if s.len() == 0 {
        Seq::empty()
    } else {
        json_escape(s.drop_last()) + json_escape_char(s.last())
    }
}

/// A JSON string literal: the escaped text between quotes.
pub open spec fn json_string(s: Seq<char>) -> Seq<char> {
    seq!['"'] + json_escape(s) + seq!['"']
}

/// One posting as a JSON object.
pub open spec fn posting_json(p: PostingView) -> Seq<char> {
    "{\"debit_account\":"@ + json_string(spec_join(p.debit_account, ':'))
        + ",\"credit_account\":"@ + json_string(spec_join(p.credit_account, ':')) + ",\"amount\":"@
        + dec_digits(p.amount as nat) + "}"@
}

/// The postings joined with commas.
pub open spec fn postings_json(ps: Seq<PostingView>) -> Seq<char>
    decreases ps.len(),
{
    if ps.len() == 0 {
        Seq::empty()
    } else if ps.len() == 1 {
        posting_json(ps[0])
    } else {
        postings_json(ps.drop_last()) + seq![','] + posting_json(ps.last())
    }
}

/// The whole splits column: the postings as a JSON array.
pub open spec fn splits_json(ps: Seq<PostingView>) -> Seq<char> {
    seq!['['] + postings_json(ps) + seq![']']
}

fn low_char_str(v: u8) -> (r: &'static str)
    requires
        v < 0x20,
    ensures
        r@ =~= seq![low_char(v as int)],
{
    proof {
        reveal_strlit("\u{0}");
        reveal_strlit("\u{1}");
        reveal_strlit("\u{2}");
        reveal_strlit("\u{3}");
        reveal_strlit("\u{4}");
        reveal_strlit("\u{5}");
        reveal_strlit("\u{6}");
        reveal_strlit("\u{7}");
        reveal_strlit("\u{8}");
        reveal_strlit("\u{9}");
        reveal_strlit("\u{a}");
        reveal_strlit("\u{b}");
        reveal_strlit("\u{c}");
        reveal_strlit("\u{d}");
        reveal_strlit("\u{e}");
        reveal_strlit("\u{f}");
        reveal_strlit("\u{10}");
        reveal_strlit("\u{11}");
        reveal_strlit("\u{12}");
        reveal_strlit("\u{13}");
        reveal_strlit("\u{14}");
        reveal_strlit("\u{15}");
        reveal_strlit("\u{16}");
        reveal_strlit("\u{17}");
        reveal_strlit("\u{18}");
        reveal_strlit("\u{19}");
        reveal_strlit("\u{1a}");
        reveal_strlit("\u{1b}");
        reveal_strlit("\u{1c}");
        reveal_strlit("\u{1d}");
        reveal_strlit("\u{1e}");
        reveal_strlit("\u{1f}");
    }
    match v {
        0 => "\u{0}",
        1 => "\u{1}",
        2 => "\u{2}",
        3 => "\u{3}",
        4 => "\u{4}",
        5 => "\u{5}",
        6 => "\u{6}",
        7 => "\u{7}",
        8 => "\u{8}",
        9 => "\u{9}",
        10 => "\u{a}",
        11 => "\u{b}",
        12 => "\u{c}",
        13 => "\u{d}",
        14 => "\u{e}",
        15 => "\u{f}",
        16 => "\u{10}",
        17 => "\u{11}",
        18 => "\u{12}",
        19 => "\u{13}",
        20 => "\u{14}",
        21 => "\u{15}",
        22 => "\u{16}",
        23 => "\u{17}",
        24 => "\u{18}",
        25 => "\u{19}",
        26 => "\u{1a}",
        27 => "\u{1b}",
        28 => "\u{1c}",
        29 => "\u{1d}",
        30 => "\u{1e}",
        _ => "\u{1f}",
    }
}

fn hex_digit_text(d: u8) -> (r: &'static str)
    requires
        d < 16,
    ensures
        r@ =~= seq![hex_digit_char(d as int)],
{
    proof {
        reveal_strlit("0");
        reveal_strlit("1");
        reveal_strlit("2");
        reveal_strlit("3");
        reveal_strlit("4");
        reveal_strlit("5");
        reveal_strlit("6");
        reveal_strlit("7");
        reveal_strlit("8");
        reveal_strlit("9");
        reveal_strlit("a");
        reveal_strlit("b");
        reveal_strlit("c");
        reveal_strlit("d");
        reveal_strlit("e");
        reveal_strlit("f");
    }
    match d {
        0 => "0",
        1 => "1",
        2 => "2",
        3 => "3",
        4 => "4",
        5 => "5",
        6 => "6",
        7 => "7",
        8 => "8",
        9 => "9",
        10 => "a",
        11 => "b",
        12 => "c",
        13 => "d",
        14 => "e",
        _ => "f",
    }
}

/// Writes a text with JSON escaping applied.
pub fn json_escape_text(s: &str) -> (r: String)
    ensures
        r@ == json_escape(s@),
{
    let n = s.unicode_len();
    let mut r = String::new();
    let mut i: usize = 0;
    proof {
        assert(s@.take(0) =~= Seq::<char>::empty());
        assert(r@ =~= json_escape(s@.take(0)));
    }
    while i < n
        invariant
            i <= n,
            n == s@.len(),
            r@ == json_escape(s@.take(i as int)),
        decreases n - i,
    {
        let c = s.get_char(i);
        proof {
            assert(s@.take(i + 1).drop_last() =~= s@.take(i as int));
            assert(s@.take(i + 1).last() == s@[i as int]);
        }
        if c == '"' {
            proof {
                reveal_strlit("\\\"");
            }
            r.append("\\\"");
            proof {
                assert(r@ =~= json_escape(s@.take(i + 1)));
            }
        } else if c == '\\' {
            proof {
                reveal_strlit("\\\\");
            }
            r.append("\\\\");
            proof {
                assert(r@ =~= json_escape(s@.take(i + 1)));
            }
        } else if (c as u32) < 0x20 {
            let v = (c as u32) as u8;
            proof {
                reveal_strlit("\\u00");
            }
            r.append("\\u00");
            r.append(hex_digit_text(v / 16));
            r.append(hex_digit_text(v % 16));
            proof {
                assert(r@ =~= json_escape(s@.take(i + 1)));
            }
        } else {
            r.append(s.substring_char(i, i + 1));
            proof {
                assert(s@.subrange(i as int, i + 1) =~= seq![s@[i as int]]);
                assert(r@ =~= json_escape(s@.take(i + 1)));
            }
        }
        i += 1;
    }
    proof {
        assert(s@.take(n as int) =~= s@);
    }
    r
}

/// Writes a JSON string literal.
pub fn json_string_text(s: &str) -> (r: String)
    ensures
        r@ == json_string(s@),
{
    proof {
        reveal_strlit("\"");
    }
    let mut r = String::new();
    r.append("\"");
    let esc = json_escape_text(s);
    r.append(esc.as_str());
    r.append("\"");
    proof {
        assert(r@ =~= json_string(s@));
    }
    r
}

/// Writes one posting as a JSON object.
pub fn posting_json_text(p: &Posting) -> (r: String)
    ensures
        r@ == posting_json(p@),
{
    proof {
        reveal_strlit("{\"debit_account\":");
        reveal_strlit(",\"credit_account\":");
        reveal_strlit(",\"amount\":");
        reveal_strlit("}");
    }
    let mut r = String::new();
    r.append("{\"debit_account\":");
    let d = p.debit_account.to_text();
    let dq = json_string_text(d.as_str());
    r.append(dq.as_str());
    r.append(",\"credit_account\":");
    let c = p.credit_account.to_text();
    let cq = json_string_text(c.as_str());
    r.append(cq.as_str());
    r.append(",\"amount\":");
    let a = u64_to_dec(p.amount);
    r.append(a.as_str());
    r.append("}");
    proof {
        assert(r@ =~= posting_json(p@));
    }
    r
}

/// Writes the splits column: the postings as a JSON array.
pub fn splits_to_json(ps: &Vec<Posting>) -> (r: String)
    ensures
        r@ == splits_json(ps.deep_view()),
{
    let ghost dv = ps.deep_view();
    proof {
        reveal_strlit("[");
        reveal_strlit(",");
        reveal_strlit("]");
    }
    let mut r = String::new();
    r.append("[");
    let n = ps.len();
    let mut i: usize = 0;
    proof {
        assert(dv.take(0) =~= Seq::<PostingView>::empty());
        assert(r@ =~= seq!['['] + postings_json(dv.take(0)));
    }
    while i < n
        invariant
            i <= n,
            n == ps.len(),
            dv == ps.deep_view(),
            r@ == seq!['['] + postings_json(dv.take(i as int)),
        decreases n - i,
    {
        proof {
            reveal_strlit(",");
        }
        if i > 0 {
            r.append(",");
        }
        let pj = posting_json_text(&ps[i]);
        r.append(pj.as_str());
        proof {
            assert(dv.take(i + 1).drop_last() =~= dv.take(i as int));
            assert(dv.take(i + 1).last() == dv[i as int]);
            assert(dv.take(i + 1)[0] == dv[0]);
            assert(r@ =~= seq!['['] + postings_json(dv.take(i + 1)));
        }
        i += 1;
    }
    r.append("]");
    proof {
        assert(dv.take(n as int) =~= dv);
        assert(r@ =~= splits_json(dv));
    }
    r
}

/// What reading a JSON string body (after its opening quote) yields: the
/// decoded content and the count of characters consumed, closing quote
/// included. Only the escapes the writer emits are read back.
pub open spec fn parse_string_body(s: Seq<char>) -> Option<(Seq<char>, int)>
    decreases s.len(),
{
    if s.len() == 0 {
        None
    } else if s[0] == '"' {
        Some((Seq::empty(), 1))
    } else if s[0] == '\\' {
        if s.len() >= 2 && (s[1] == '"' || s[1] == '\\') {
            match parse_string_body(s.skip(2)) {
                Some((t, m)) => Some((seq![s[1]] + t, 2 + m)),
                None => None,
            }
        } else if s.len() >= 6 && s[1] == 'u' && s[2] == '0' && s[3] == '0' && is_hex_digit(s[4])
            && is_hex_digit(s[5]) && hex_val(s[4]) * 16 + hex_val(s[5]) < 0x20 {
            match parse_string_body(s.skip(6)) {
                Some((t, m)) => Some((seq![low_char(hex_val(s[4]) * 16 + hex_val(s[5]))] + t, 6 + m)),
                None => None,
            }
        } else {
            None
        }
    } else if (s[0] as int) >= 0x20 {
        match parse_string_body(s.skip(1)) {
            Some((t, m)) => Some((seq![s[0]] + t, 1 + m)),
            None => None,
        }
    } else {
        None
    }
}

/// Reading a string consumes at least its closing quote.
proof fn lemma_string_body_consumes(s: Seq<char>)
    ensures
        parse_string_body(s) matches Some((t, m)) ==> 1 <= m <= s.len(),
    decreases s.len(),
{
    if s.len() > 0 && s[0] == '\\' {
        if s.len() >= 2 && (s[1] == '"' || s[1] == '\\') {
            lemma_string_body_consumes(s.skip(2));
        } else if s.len() >= 6 && s[1] == 'u' && s[2] == '0' && s[3] == '0' && is_hex_digit(s[4])
            && is_hex_digit(s[5]) && hex_val(s[4]) * 16 + hex_val(s[5]) < 0x20 {
            lemma_string_body_consumes(s.skip(6));
        }
    } else if s.len() > 0 && s[0] != '"' && (s[0] as int) >= 0x20 {
        lemma_string_body_consumes(s.skip(1));
    }
}

/// How many decimal digits the text begins with.
pub open spec fn digits_prefix(s: Seq<char>) -> int
    decreases s.len(),
{
    if s.len() > 0 && is_dec_digit(s[0]) {
        1 + digits_prefix(s.skip(1))
    } else {
        0
    }
}

/// `digits_prefix` is the length of the maximal leading digit run.
proof fn lemma_digits_prefix_char(s: Seq<char>, k: int)
    requires
        0 <= k <= s.len(),
        forall|j: int| 0 <= j < k ==> is_dec_digit(#[trigger] s[j]),
        k < s.len() ==> !is_dec_digit(s[k]),
    ensures
        digits_prefix(s) == k,
    decreases s.len(),
{
    if k == 0 {
    } else {
        assert(is_dec_digit(s[0]));
        let t = s.skip(1);
        assert(forall|j: int| 0 <= j < k - 1 ==> t[j] == s[j + 1]);
        if k - 1 < t.len() {
            assert(t[k - 1] == s[k]);
        }
        lemma_digits_prefix_char(t, k - 1);
    }
}

proof fn lemma_digits_prefix_bounds(s: Seq<char>)
    ensures
        0 <= digits_prefix(s) <= s.len(),
    decreases s.len(),
{
    if s.len() > 0 && is_dec_digit(s[0]) {
        lemma_digits_prefix_bounds(s.skip(1));
    }
}

/// What reading an amount yields: the leading digit run's value when it is
/// non-empty and fits, and the count of digits read.
pub open spec fn parse_amount(s: Seq<char>) -> Option<(u64, int)> {
    let k = digits_prefix(s);
    if k > 0 && dec_value(s.take(k)) <= u64::MAX {
        Some((dec_value(s.take(k)) as u64, k))
    } else {
        None
    }
}

/// What reading one posting object yields: the posting and the count of
/// characters consumed, closing brace included. The keys must stand in the
/// order the writer emits.
pub open spec fn parse_posting_text(s: Seq<char>) -> Option<(PostingView, int)> {
    let l1 = "{\"debit_account\":\""@;
    let l2 = ",\"credit_account\":\""@;
    let l3 = ",\"amount\":"@;
    if s.len() >= l1.len() && s.take(l1.len() as int) == l1 {
        match parse_string_body(s.skip(l1.len() as int)) {
            Some((d, k1)) => {
                let p1 = l1.len() + k1;
                if s.len() >= p1 + l2.len() && s.subrange(p1 as int, p1 + l2.len()) == l2 {
                    match parse_string_body(s.skip(p1 + l2.len())) {
                        Some((c, k2)) => {
                            let p2 = p1 + l2.len() + k2;
                            if s.len() >= p2 + l3.len() && s.subrange(p2 as int, p2 + l3.len())
                                == l3 {
                                match parse_amount(s.skip(p2 + l3.len())) {
                                    Some((a, k3)) => {
                                        let p3 = p2 + l3.len() as int + k3;
                                        if p3 < s.len() && s[p3 as int] == '}' {
                                            Some(
                                                (
                                                    PostingView {
                                                        debit_account: spec_account_of(d),
                                                        credit_account: spec_account_of(c),
                                                        amount: a,
                                                    },
                                                    p3 + 1,
                                                ),
                                            )
                                        } else {
                                            None
                                        }
                                    },
                                    None => None,
                                }
                            } else {
                                None
                            }
                        },
                        None => None,
                    }
                } else {
                    None
                }
            },
            None => None,
        }
    } else {
        None
    }
}

/// Reading a posting consumes at least one character.
proof fn lemma_posting_consumes(s: Seq<char>)
    ensures
        parse_posting_text(s) matches Some((p, k)) ==> 1 <= k <= s.len(),
{
    let l1 = "{\"debit_account\":\""@;
    let l2 = ",\"credit_account\":\""@;
    if s.len() >= l1.len() && s.take(l1.len() as int) == l1 {
        lemma_string_body_consumes(s.skip(l1.len() as int));
        if parse_string_body(s.skip(l1.len() as int)) is Some {
            let k1 = (parse_string_body(s.skip(l1.len() as int))->0).1;
            let p1 = l1.len() + k1;
            if s.len() >= p1 + l2.len() && s.subrange(p1 as int, p1 + l2.len()) == l2 {
                lemma_string_body_consumes(s.skip(p1 + l2.len()));
                if parse_string_body(s.skip(p1 + l2.len())) is Some {
                    let k2 = (parse_string_body(s.skip(p1 + l2.len()))->0).1;
                    let p2 = p1 + l2.len() + k2;
                    lemma_digits_prefix_bounds(s.skip(p2 + ",\"amount\":"@.len()));
                }
            }
        }
    }
}

/// What reading the array elements after the opening bracket yields: the
/// postings and the count of characters consumed, closing bracket included.
pub open spec fn parse_splits_rest(s: Seq<char>) -> Option<(Seq<PostingView>, int)>
    decreases s.len(),
    via parse_splits_rest_decreases
{
    match parse_posting_text(s) {
        Some((p, k)) => {
            if k < s.len() && s[k] == ']' {
                Some((seq![p], k + 1))
            } else if k < s.len() && s[k] == ',' {
                match parse_splits_rest(s.skip(k + 1)) {
                    Some((ps, m)) => Some((seq![p] + ps, k + 1 + m)),
                    None => None,
                }
            } else {
                None
            }
        },
        None => None,
    }
}

#[via_fn]
proof fn parse_splits_rest_decreases(s: Seq<char>) {
    lemma_posting_consumes(s);
}

/// What reading the whole splits column yields: the postings when the text
/// is a complete JSON array of posting objects, nothing otherwise.
pub open spec fn spec_parse_splits(s: Seq<char>) -> Option<Seq<PostingView>> {
    if s.len() >= 1 && s[0] == '[' {
        if s.len() == 2 && s[1] == ']' {
            Some(Seq::empty())
        } else {
            match parse_splits_rest(s.skip(1)) {
                Some((ps, m)) => {
                    if 1 + m == s.len() {
                        Some(ps)
                    } else {
                        None
                    }
                },
                None => None,
            }
        }
    } else {
        None
    }
}

/// Does the literal stand at `pos` in `s`?
fn match_lit(s: &str, pos: usize, lit: &str) -> (r: bool)
    requires
        pos <= s@.len(),
    ensures
        r == (pos + lit@.len() <= s@.len() && s@.subrange(
            pos as int,
            pos as int + lit@.len(),
        ) == lit@),
{
    let n = s.unicode_len();
    let m = lit.unicode_len();
    if n - pos < m {
        return false;
    }
    let mut j: usize = 0;
    while j < m
        invariant
            j <= m,
            m == lit@.len(),
            n == s@.len(),
            pos + m <= n,
            forall|q: int| 0 <= q < j ==> s@[pos + q] == lit@[q],
        decreases m - j,
    {
        if s.get_char(pos + j) != lit.get_char(j) {
            assert(s@[pos + j] != lit@[j as int]);
            assert(s@.subrange(pos as int, pos as int + lit@.len())[j as int] != lit@[j as int]);
            return false;
        }
        j += 1;
    }
    proof {
        assert(s@.subrange(pos as int, pos as int + lit@.len()) =~= lit@);
    }
    true
}

/// Reads a JSON string body starting at `pos` (just past the opening
/// quote); mirrors `parse_string_body` on the suffix.
fn read_string_body(s: &str, pos: usize) -> (r: Option<(String, usize)>)
    requires
        pos <= s@.len(),
    ensures
        r matches Some(t) ==> pos < t.1 <= s@.len() && parse_string_body(s@.skip(pos as int))
            == Some((t.0@, t.1 - pos as int)),
        r is None ==> parse_string_body(s@.skip(pos as int)) is None,
{
    let n = s.unicode_len();
    let mut out = String::new();
    let mut i: usize = pos;
    proof {
        assert(out@ + Seq::<char>::empty() =~= out@);
    }
    while i < n
        invariant
            pos <= i <= n,
            n == s@.len(),
            parse_string_body(s@.skip(pos as int)) == (match parse_string_body(s@.skip(i as int)) {
                Some((t, m)) => Some((out@ + t, (i - pos) + m)),
                None => None,
            }),
        decreases n - i,
    {
        let ghost suf = s@.skip(i as int);
        proof {
            assert(suf.len() == n - i);
            assert(suf[0] == s@[i as int]);
        }
        let c = s.get_char(i);
        if c == '"' {
            proof {
                assert(parse_string_body(suf) == Some((Seq::<char>::empty(), 1int)));
                assert(out@ + Seq::<char>::empty() =~= out@);
            }
            return Some((out, i + 1));
        } else if c == '\\' {
            if i + 1 < n {
                let c2 = s.get_char(i + 1);
                proof {
                    assert(suf[1] == s@[i + 1]);
                }
                if c2 == '"' || c2 == '\\' {
                    let ghost before = out@;
                    out.append(s.substring_char(i + 1, i + 2));
                    proof {
                        assert(s@.subrange(i + 1, i + 2) =~= seq![s@[i + 1]]);
                        assert(suf.skip(2) =~= s@.skip(i + 2));
                        if parse_string_body(s@.skip(i + 2)) is Some {
                            let t = (parse_string_body(s@.skip(i + 2))->0).0;
                            assert((before + (seq![suf[1]] + t)) =~= (out@ + t));
                        }
                    }
                    i += 2;
                } else if c2 == 'u' && n - i > 5 {
                    let h0 = s.get_char(i + 2);
                    let h1 = s.get_char(i + 3);
                    let h2 = s.get_char(i + 4);
                    let h3 = s.get_char(i + 5);
                    proof {
                        assert(suf[2] == s@[i + 2] && suf[3] == s@[i + 3] && suf[4] == s@[i + 4]
                            && suf[5] == s@[i + 5]);
                    }
                    if h0 == '0' && h1 == '0' {
                        let d2 = crate::numtext::read_hex_digit(h2);
                        let d3 = crate::numtext::read_hex_digit(h3);
                        match (d2, d3) {
                            (Some(v2), Some(v3)) => {
                                let v = v2 * 16 + v3;
                                if v < 0x20 {
                                    let ghost before = out@;
                                    out.append(low_char_str(v));
                                    proof {
                                        assert(suf.skip(6) =~= s@.skip(i + 6));
                                        if parse_string_body(s@.skip(i + 6)) is Some {
                                            let t = (parse_string_body(s@.skip(i + 6))->0).0;
                                            assert((before + (seq![low_char(v as int)] + t)) =~= (
                                            out@ + t));
                                        }
                                    }
                                    i += 6;
                                } else {
                                    return None;
                                }
                            },
                            _ => {
                                return None;
                            },
                        }
                    } else {
                        return None;
                    }
                } else {
                    return None;
                }
            } else {
                return None;
            }
        } else if (c as u32) >= 0x20 {
            let ghost before = out@;
            out.append(s.substring_char(i, i + 1));
            proof {
                assert(s@.subrange(i as int, i + 1) =~= seq![s@[i as int]]);
                assert(suf.skip(1) =~= s@.skip(i + 1));
                if parse_string_body(s@.skip(i + 1)) is Some {
                    let t = (parse_string_body(s@.skip(i + 1))->0).0;
                    assert((before + (seq![suf[0]] + t)) =~= (out@ + t));
                }
            }
            i += 1;
        } else {
            return None;
        }
    }
    proof {
        assert(s@.skip(i as int).len() == 0);
    }
    None
}

fn is_digit_char(c: char) -> (r: bool)
    ensures
        r == is_dec_digit(c),
{
    '0' <= c && c <= '9'
}

/// Reads the leading digit run at `pos` as an amount; mirrors
/// `parse_amount` on the suffix.
fn read_amount(s: &str, pos: usize) -> (r: Option<(u64, usize)>)
    requires
        pos <= s@.len(),
    ensures
        r matches Some(t) ==> pos < t.1 <= s@.len() && parse_amount(s@.skip(pos as int)) == Some(
            (t.0, t.1 - pos as int),
        ),
        r is None ==> parse_amount(s@.skip(pos as int)) is None,
{
    let n = s.unicode_len();
    let mut j: usize = pos;
    while j < n && is_digit_char(s.get_char(j))
        invariant
            pos <= j <= n,
            n == s@.len(),
            forall|q: int| pos <= q < j ==> is_dec_digit(#[trigger] s@[q]),
        decreases n - j,
    {
        j += 1;
    }
    proof {
        let suf = s@.skip(pos as int);
        assert(forall|q: int| 0 <= q < j - pos ==> suf[q] == s@[pos + q]);
        if j < n {
            assert(suf[j - pos] == s@[j as int]);
        }
        lemma_digits_prefix_char(suf, j - pos);
    }
    if j == pos {
        return None;
    }
    let sub = s.substring_char(pos, j);
    proof {
        assert(sub@ =~= s@.skip(pos as int).take(j - pos));
        assert(forall|q: int| 0 <= q < sub@.len() ==> is_dec_digit(#[trigger] sub@[q]));
    }
    match dec_to_u64(sub) {
        Some(v) => Some((v, j)),
        None => None,
    }
}

/// Reads one posting object at `pos`; mirrors `parse_posting_text` on the
/// suffix.
fn read_posting(s: &str, pos: usize) -> (r: Option<(Posting, usize)>)
    requires
        pos <= s@.len(),
    ensures
        r matches Some(t) ==> pos < t.1 <= s@.len() && parse_posting_text(s@.skip(pos as int))
            == Some((t.0@, t.1 - pos as int)),
        r is None ==> parse_posting_text(s@.skip(pos as int)) is None,
{
    let ghost suf = s@.skip(pos as int);
    let n = s.unicode_len();
    let l1 = "{\"debit_account\":\"";
    let l2 = ",\"credit_account\":\"";
    let l3 = ",\"amount\":";
    let l1n = l1.unicode_len();
    let l2n = l2.unicode_len();
    let l3n = l3.unicode_len();
    if !match_lit(s, pos, l1) {
        proof {
            if suf.len() >= l1@.len() && suf.take(l1@.len() as int) == l1@ {
                assert(suf.take(l1@.len() as int) =~= s@.subrange(
                    pos as int,
                    pos as int + l1@.len(),
                ));
            }
        }
        return None;
    }
    proof {
        assert(suf.take(l1@.len() as int) =~= s@.subrange(pos as int, pos as int + l1@.len()));
        assert(suf.skip(l1@.len() as int) =~= s@.skip(pos + l1n));
    }
    let r1 = read_string_body(s, pos + l1n);
    let (dtext, p1) = match r1 {
        Some(t) => t,
        None => {
            return None;
        },
    };
    proof {
        assert(suf.skip((p1 - pos) as int) =~= s@.skip(p1 as int));
    }
    if !match_lit(s, p1, l2) {
        proof {
            let sp1 = (p1 - pos) as int;
            if suf.len() >= sp1 + l2@.len() && suf.subrange(sp1, sp1 + l2@.len()) == l2@ {
                assert(suf.subrange(sp1, sp1 + l2@.len()) =~= s@.subrange(
                    p1 as int,
                    p1 as int + l2@.len(),
                ));
            }
        }
        return None;
    }
    proof {
        assert(suf.subrange((p1 - pos) as int, (p1 - pos) as int + l2@.len()) =~= s@.subrange(
            p1 as int,
            p1 as int + l2@.len(),
        ));
        assert(suf.skip((p1 - pos) as int + l2@.len()) =~= s@.skip(p1 + l2n));
    }
    let r2 = read_string_body(s, p1 + l2n);
    let (ctext, p2) = match r2 {
        Some(t) => t,
        None => {
            return None;
        },
    };
    proof {
        assert(suf.skip((p2 - pos) as int) =~= s@.skip(p2 as int));
    }
    if !match_lit(s, p2, l3) {
        proof {
            let sp2 = (p2 - pos) as int;
            if suf.len() >= sp2 + l3@.len() && suf.subrange(sp2, sp2 + l3@.len()) == l3@ {
                assert(suf.subrange(sp2, sp2 + l3@.len()) =~= s@.subrange(
                    p2 as int,
                    p2 as int + l3@.len(),
                ));
            }
        }
        return None;
    }
    proof {
        assert(suf.subrange((p2 - pos) as int, (p2 - pos) as int + l3@.len()) =~= s@.subrange(
            p2 as int,
            p2 as int + l3@.len(),
        ));
        assert(suf.skip((p2 - pos) as int + l3@.len()) =~= s@.skip(p2 + l3n));
    }
    let r3 = read_amount(s, p2 + l3n);
    let (amount, p3) = match r3 {
        Some(t) => t,
        None => {
            return None;
        },
    };
    if p3 < n && s.get_char(p3) == '}' {
        proof {
            assert(suf[(p3 - pos) as int] == s@[p3 as int]);
        }
        let p = Posting {
            debit_account: Account::parse_str(dtext.as_str()),
            credit_account: Account::parse_str(ctext.as_str()),
            amount,
        };
        Some((p, p3 + 1))
    } else {
        proof {
            if (p3 - pos) < suf.len() {
                assert(suf[(p3 - pos) as int] == s@[p3 as int]);
            }
        }
        None
    }
}

/// Reads the whole splits column; decides and decodes exactly
/// `spec_parse_splits`.
pub fn parse_splits_text(s: &str) -> (r: Option<Vec<Posting>>)
    ensures
        r matches Some(ps) ==> spec_parse_splits(s@) == Some(ps.deep_view()),
        r is None ==> spec_parse_splits(s@) is None,
{
    let n = s.unicode_len();
    if n == 0 {
        return None;
    }
    if s.get_char(0) != '[' {
        return None;
    }
    if n == 2 && s.get_char(1) == ']' {
        let ps: Vec<Posting> = Vec::new();
        proof {
            assert(ps.deep_view() =~= Seq::<PostingView>::empty());
        }
        return Some(ps);
    }
    let mut out: Vec<Posting> = Vec::new();
    let mut i: usize = 1;
    proof {
        assert(out.deep_view() =~= Seq::<PostingView>::empty());
    }
    while i < n
        invariant
            1 <= i <= n,
            n == s@.len(),
            n >= 1,
            s@[0] == '[',
            !(n == 2 && s@[1] == ']'),
            parse_splits_rest(s@.skip(1)) == (match parse_splits_rest(s@.skip(i as int)) {
                Some((ps, m)) => Some((out.deep_view() + ps, (i - 1) + m)),
                None => None,
            }),
        decreases n - i,
    {
        let rp = read_posting(s, i);
        let (p, end) = match rp {
            Some(t) => t,
            None => {
                return None;
            },
        };
        let ghost sufi = s@.skip(i as int);
        proof {
            lemma_posting_consumes(sufi);
            if end < n {
                assert(sufi[(end - i) as int] == s@[end as int]);
            }
        }
        if end < n && s.get_char(end) == ']' {
            let ghost before = out.deep_view();
            out.push(p);
            proof {
                assert(parse_splits_rest(sufi) == Some((seq![p@], (end - i) + 1int)));
                assert(before + seq![p@] =~= out.deep_view());
            }
            if end + 1 == n {
                return Some(out);
            } else {
                return None;
            }
        } else if end < n && s.get_char(end) == ',' {
            let ghost before = out.deep_view();
            out.push(p);
            proof {
                assert(sufi.skip((end - i) + 1) =~= s@.skip(end + 1));
                if parse_splits_rest(s@.skip(end + 1)) is Some {
                    let ps2 = (parse_splits_rest(s@.skip(end + 1))->0).0;
                    assert((before + (seq![p@] + ps2)) =~= (out.deep_view() + ps2));
                }
            }
            i = end + 1;
        } else {
            proof {
                assert(parse_splits_rest(sufi) is None);
            }
            return None;
        }
    }
    proof {
        assert(s@.skip(i as int).len() == 0);
        assert(parse_posting_text(s@.skip(i as int)) is None);
    }
    None
}

/// Escaping works from the front as well as from the back.
proof fn lemma_escape_front(s: Seq<char>)
    requires
        s.len() > 0,
    ensures
        json_escape(s) == json_escape_char(s[0]) + json_escape(s.drop_first()),
    decreases s.len(),
{
    if s.len() == 1 {
        assert(s.drop_last() =~= Seq::<char>::empty());
        assert(s.drop_first() =~= Seq::<char>::empty());
        assert(s.last() == s[0]);
        assert(json_escape(s) =~= json_escape_char(s[0]) + json_escape(s.drop_first()));
    } else {
        let dl = s.drop_last();
        lemma_escape_front(dl);
        assert(dl[0] == s[0]);
        let df = s.drop_first();
        assert(dl.drop_first() =~= df.drop_last());
        assert(df.last() == s.last());
        assert(json_escape(df) == json_escape(df.drop_last()) + json_escape_char(df.last()));
        assert((json_escape_char(s[0]) + json_escape(df.drop_last())) + json_escape_char(s.last())
            =~= json_escape_char(s[0]) + (json_escape(df.drop_last()) + json_escape_char(
            s.last(),
        )));
    }
}

/// The hex pair written for a control character reads back as that
/// character.
proof fn lemma_low_char_inverse(c: char)
    requires
        (c as int) < 0x20,
    ensures
        is_hex_digit(hex_digit_char(c as int / 16)),
        is_hex_digit(hex_digit_char(c as int % 16)),
        hex_val(hex_digit_char(c as int / 16)) == c as int / 16,
        hex_val(hex_digit_char(c as int % 16)) == c as int % 16,
        low_char(c as int) == c,
{
}

/// Reading a written string body: the parser consumes the escaped text and
/// the closing quote, whatever follows, and returns the text.
proof fn lemma_string_roundtrip(s: Seq<char>, rest: Seq<char>)
    ensures
        parse_string_body(json_escape(s) + seq!['"'] + rest) == Some(
            (s, json_escape(s).len() as int + 1),
        ),
    decreases s.len(),
{
    let w = json_escape(s) + seq!['"'] + rest;
    if s.len() == 0 {
        assert(json_escape(s) == Seq::<char>::empty());
        assert(w =~= seq!['"'] + rest);
        assert(w[0] == '"');
        assert(s =~= Seq::<char>::empty());
    } else {
        lemma_escape_front(s);
        let c = s[0];
        let e = json_escape_char(c);
        let w2 = json_escape(s.drop_first()) + seq!['"'] + rest;
        assert(w =~= e + w2);
        lemma_string_roundtrip(s.drop_first(), rest);
        let m2 = json_escape(s.drop_first()).len() as int + 1;
        if c == '"' || c == '\\' {
            assert(e =~= seq!['\\', c]);
            assert(w[0] == '\\' && w[1] == c);
            assert(w.skip(2) =~= w2);
            assert(seq![w[1]] + s.drop_first() =~= s);
            assert(parse_string_body(w) == Some((s, 2 + m2)));
        } else if (c as int) < 0x20 {
            lemma_low_char_inverse(c);
            assert(e =~= seq![
                '\\',
                'u',
                '0',
                '0',
                hex_digit_char(c as int / 16),
                hex_digit_char(c as int % 16),
            ]);
            assert(w[0] == '\\' && w[1] == 'u' && w[2] == '0' && w[3] == '0');
            assert(w[4] == hex_digit_char(c as int / 16));
            assert(w[5] == hex_digit_char(c as int % 16));
            assert(hex_val(w[4]) * 16 + hex_val(w[5]) == c as int);
            assert(w.skip(6) =~= w2);
            assert(low_char(hex_val(w[4]) * 16 + hex_val(w[5])) == c);
            assert(seq![c] + s.drop_first() =~= s);
            assert(parse_string_body(w) == Some((s, 6 + m2)));
        } else {
            assert(e =~= seq![c]);
            assert(w[0] == c);
            assert(c != '"' && c != '\\' && (c as int) >= 0x20);
            assert(w.skip(1) =~= w2);
            assert(seq![c] + s.drop_first() =~= s);
            assert(parse_string_body(w) == Some((s, 1 + m2)));
        }
    }
}

/// A path whose segments the splits format can write and read back: no
/// segment holds a colon, and the path is not the single empty segment.
pub open spec fn account_path_wf(parts: Seq<Seq<char>>) -> bool {
    &&& forall|i: int, j: int|
        0 <= i < parts.len() && 0 <= j < parts[i].len() ==> #[trigger] parts[i][j] != ':'
    &&& !(parts.len() == 1 && parts[0].len() == 0)
}

/// Reading a written posting object: the parser consumes it exactly,
/// whatever follows, and returns the posting.
#[verifier::rlimit(80)]
proof fn lemma_posting_roundtrip(p: PostingView, rest: Seq<char>)
    requires
        account_path_wf(p.debit_account),
        account_path_wf(p.credit_account),
    ensures
        parse_posting_text(posting_json(p) + rest) == Some((p, posting_json(p).len() as int)),
{
    let l1 = "{\"debit_account\":\""@;
    let l2 = ",\"credit_account\":\""@;
    let l3 = ",\"amount\":"@;
    let dtext = spec_join(p.debit_account, ':');
    let ctext = spec_join(p.credit_account, ':');
    let digits = dec_digits(p.amount as nat);
    let w = posting_json(p) + rest;
    reveal_strlit("{\"debit_account\":");
    reveal_strlit("{\"debit_account\":\"");
    reveal_strlit(",\"credit_account\":");
    reveal_strlit(",\"credit_account\":\"");
    reveal_strlit(",\"amount\":");
    reveal_strlit("}");
    assert("{\"debit_account\":\""@ =~= "{\"debit_account\":"@ + seq!['"']);
    assert(",\"credit_account\":\""@ =~= ",\"credit_account\":"@ + seq!['"']);
    // The text decomposes as the parser walks it.
    let tail2 = l3 + digits + seq!['}'] + rest;
    let rest1 = l2 + (json_escape(ctext) + seq!['"'] + tail2);
    assert(w =~= l1 + (json_escape(dtext) + seq!['"'] + rest1));
    assert(w.take(l1.len() as int) =~= l1);
    let after1 = json_escape(dtext) + seq!['"'] + rest1;
    assert(w.skip(l1.len() as int) =~= after1);
    lemma_string_roundtrip(dtext, rest1);
    let k1 = json_escape(dtext).len() as int + 1;
    let p1 = l1.len() as int + k1;
    assert(w.subrange(p1, p1 + l2.len() as int) =~= l2);
    assert(w.skip(p1 + l2.len() as int) =~= json_escape(ctext) + seq!['"'] + tail2);
    lemma_string_roundtrip(ctext, tail2);
    let k2 = json_escape(ctext).len() as int + 1;
    let p2 = p1 + l2.len() as int + k2;
    assert(w.subrange(p2, p2 + l3.len() as int) =~= l3);
    assert(w.skip(p2 + l3.len() as int) =~= digits + seq!['}'] + rest);
    // The amount reads back.
    crate::numtext::lemma_dec_digits_shape(p.amount as nat);
    crate::numtext::lemma_dec_digits_value(p.amount as nat);
    let tail = digits + seq!['}'] + rest;
    assert(forall|j: int| 0 <= j < digits.len() ==> is_dec_digit(#[trigger] tail[j]));
    assert(tail[digits.len() as int] == '}');
    assert(!is_dec_digit('}'));
    lemma_digits_prefix_char_pub(tail, digits.len() as int);
    assert(tail.take(digits.len() as int) =~= digits);
    assert(parse_amount(tail) == Some((p.amount, digits.len() as int)));
    let k3 = digits.len() as int;
    let p3 = p2 + l3.len() as int + k3;
    assert(w[p3] == '}');
    // The decoded accounts are the original paths.
    crate::account::lemma_account_text_roundtrip(p.debit_account);
    crate::account::lemma_account_text_roundtrip(p.credit_account);
    assert(spec_account_of(dtext) == p.debit_account);
    assert(spec_account_of(ctext) == p.credit_account);
    assert(p3 + 1 == posting_json(p).len());
    assert(parse_posting_text(w) == Some((p, p3 + 1)));
}

proof fn lemma_digits_prefix_char_pub(s: Seq<char>, k: int)
    requires
        0 <= k <= s.len(),
        forall|j: int| 0 <= j < k ==> is_dec_digit(#[trigger] s[j]),
        k < s.len() ==> !is_dec_digit(s[k]),
    ensures
        digits_prefix(s) == k,
    decreases s.len(),
{
    lemma_digits_prefix_char(s, k);
}

/// The comma-joined postings start with the first posting, a comma, and
/// the rest.
proof fn lemma_postings_json_front(ps: Seq<PostingView>)
    requires
        ps.len() >= 2,
    ensures
        postings_json(ps) == posting_json(ps[0]) + seq![','] + postings_json(ps.drop_first()),
    decreases ps.len(),
{
    if ps.len() == 2 {
        assert(ps.drop_last() =~= seq![ps[0]]);
        assert(postings_json(seq![ps[0]]) == posting_json(ps[0]));
        assert(ps.drop_first() =~= seq![ps[1]]);
        assert(postings_json(seq![ps[1]]) == posting_json(ps[1]));
        assert(ps.last() == ps[1]);
    } else {
        let dl = ps.drop_last();
        lemma_postings_json_front(dl);
        assert(dl[0] == ps[0]);
        let df = ps.drop_first();
        assert(dl.drop_first() =~= df.drop_last());
        assert(df.len() >= 2);
        assert(postings_json(df) == postings_json(df.drop_last()) + seq![','] + posting_json(
            df.last(),
        ));
        assert(df.last() == ps.last());
        assert((posting_json(ps[0]) + seq![','] + postings_json(df.drop_last())) + seq![',']
            + posting_json(ps.last()) =~= posting_json(ps[0]) + seq![','] + (postings_json(
            df.drop_last(),
        ) + seq![','] + posting_json(ps.last())));
    }
}

/// Every posting all of whose paths the format can round.
pub open spec fn postings_wf(ps: Seq<PostingView>) -> bool {
    forall|i: int|
        0 <= i < ps.len() ==> account_path_wf((#[trigger] ps[i]).debit_account)
            && account_path_wf(ps[i].credit_account)
}

/// Reading written array elements: the parser consumes the postings and
/// the closing bracket and returns the postings.
proof fn lemma_splits_rest_roundtrip(ps: Seq<PostingView>)
    requires
        ps.len() >= 1,
        postings_wf(ps),
    ensures
        parse_splits_rest(postings_json(ps) + seq![']']) == Some(
            (ps, postings_json(ps).len() as int + 1),
        ),
    decreases ps.len(),
{
    if ps.len() == 1 {
        let w = postings_json(ps) + seq![']'];
        assert(postings_json(ps) == posting_json(ps[0]));
        lemma_posting_roundtrip(ps[0], seq![']']);
        let k = posting_json(ps[0]).len() as int;
        assert(w[k] == ']');
        assert(seq![ps[0]] =~= ps);
        assert(parse_splits_rest(w) == Some((ps, k + 1)));
    } else {
        lemma_postings_json_front(ps);
        let w = postings_json(ps) + seq![']'];
        let tail = postings_json(ps.drop_first()) + seq![']'];
        assert(w =~= posting_json(ps[0]) + (seq![','] + tail));
        lemma_posting_roundtrip(ps[0], seq![','] + tail);
        let k = posting_json(ps[0]).len() as int;
        assert(w[k] == ',');
        assert(w.skip(k + 1) =~= tail);
        assert(postings_wf(ps.drop_first())) by {
            assert(forall|i: int|
                0 <= i < ps.drop_first().len() ==> ps.drop_first()[i] == ps[i + 1]);
        }
        lemma_splits_rest_roundtrip(ps.drop_first());
        assert(seq![ps[0]] + ps.drop_first() =~= ps);
        assert(parse_splits_rest(w) == Some(
            (ps, k + 1 + (postings_json(ps.drop_first()).len() + 1)),
        ));
    }
}

/// Writing the splits column and reading it back returns the same
/// postings, for every run of postings whose account paths hold no colon
/// and are not the single empty segment.
pub proof fn lemma_splits_roundtrip(ps: Seq<PostingView>)
    requires
        postings_wf(ps),
    ensures
        spec_parse_splits(splits_json(ps)) == Some(ps),
{
    let w = splits_json(ps);
    assert(w[0] == '[');
    if ps.len() == 0 {
        assert(postings_json(ps) == Seq::<char>::empty());
        assert(w =~= seq!['[', ']']);
        assert(w.len() == 2 && w[1] == ']');
        assert(spec_parse_splits(w) == Some(Seq::<PostingView>::empty()));
        assert(ps =~= Seq::<PostingView>::empty());
    } else {
        lemma_splits_rest_roundtrip(ps);
        assert(w.skip(1) =~= postings_json(ps) + seq![']']);
        assert(postings_json(ps).len() > 0) by {
            lemma_posting_json_nonempty(ps);
        }
        assert(!(w.len() == 2 && w[1] == ']')) by {
            if w.len() == 2 {
                assert(postings_json(ps).len() == 0);
            }
        }
        assert(1 + (postings_json(ps).len() + 1) == w.len());
    }
}

/// A written posting is never the empty text.
proof fn lemma_posting_json_nonempty(ps: Seq<PostingView>)
    requires
        ps.len() >= 1,
    ensures
        postings_json(ps).len() > 0,
    decreases ps.len(),
{
    reveal_strlit("{\"debit_account\":");
    if ps.len() == 1 {
        assert(posting_json(ps[0]).len() > 0);
    } else {
        lemma_posting_json_nonempty(ps.drop_last());
    }
}

} // verus!
