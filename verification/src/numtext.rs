//! Decimal and hexadecimal text codecs for the integers the row format
//! carries: amounts (decimal), record identifiers (hyphenated hex) and
//! digests (plain hex).
//!
//! Each exec function is proved against a spec function over `Seq<char>`,
//! and the parsers invert the writers.

use vstd::prelude::*;
use vstd::string::*;

verus! {

/// The character for one decimal digit.
pub open spec fn digit_char(d: int) -> char {
    if d == 0 { '0' }
    else if d == 1 { '1' }
    else if d == 2 { '2' }
    else if d == 3 { '3' }
    else if d == 4 { '4' }
    else if d == 5 { '5' }
    else if d == 6 { '6' }
    else if d == 7 { '7' }
    else if d == 8 { '8' }
    else { '9' }
}

/// Decimal digits of `n`, most significant first, no leading zeroes
/// (just "0" for zero).
pub open spec fn dec_digits(n: nat) -> Seq<char>
    decreases n,
{
    if n < 10 {
        seq![digit_char(n as int)]
    } else {
        dec_digits(n / 10) + seq![digit_char((n % 10) as int)]
    }
}

fn digit_str(d: u8) -> (r: &'static str)
    requires
        d < 10,
    ensures
        r@ =~= seq![digit_char(d as int)],
{
    proof {
        reveal_strlit("0");
        reveal_strlit("1");
        reveal_strlit("2");
        reveal_strlit("3");
        reveal_strlit("4");
        reveal_strlit("5");
        reveal_strlit("6");
        reveal_strlit("7");
        reveal_strlit("8");
        reveal_strlit("9");
    }
    match d {
        0 => "0",
        1 => "1",
        2 => "2",
        3 => "3",
        4 => "4",
        5 => "5",
        6 => "6",
        7 => "7",
        8 => "8",
        _ => "9",
    }
}

/// Writes `n` in decimal.
pub fn u64_to_dec(n: u64) -> (r: String)
    ensures
        r@ == dec_digits(n as nat),
    decreases n,
{
    if n < 10 {
        digit_str(n as u8).to_owned()
    } else {
        let mut s = u64_to_dec(n / 10);
        s.append(digit_str((n % 10) as u8));
        proof {
            assert(s@ =~= dec_digits(n as nat));
        }
        s
    }
}

/// Is `c` a decimal digit?
pub open spec fn is_dec_digit(c: char) -> bool {
    '0' <= c && c <= '9'
}

/// The numeric value of a decimal digit character.
pub open spec fn digit_val(c: char) -> int {
    c as int - '0' as int
}

/// Every character of `s` is a decimal digit.
pub open spec fn all_dec_digits(s: Seq<char>) -> bool {
    forall|j: int| 0 <= j < s.len() ==> is_dec_digit(#[trigger] s[j])
}

/// The number that the digit string `s` denotes.
pub open spec fn dec_value(s: Seq<char>) -> int
    decreases s.len(),
{
    if s.len() == 0 {
        0
    } else {
        dec_value(s.drop_last()) * 10 + digit_val(s.last())
    }
}

/// What parsing a decimal `u64` yields: the value when `s` is a non-empty
/// digit string whose value fits, nothing otherwise.
pub open spec fn spec_parse_u64(s: Seq<char>) -> Option<u64> {
    if s.len() > 0 && all_dec_digits(s) && dec_value(s) <= u64::MAX {
        Some(dec_value(s) as u64)
    } else {
        None
    }
}

/// A digit string's value never shrinks when the string grows.
proof fn lemma_dec_value_grows(s: Seq<char>, i: int)
    requires
        0 <= i <= s.len(),
        all_dec_digits(s),
    ensures
        dec_value(s) >= dec_value(s.take(i)),
        dec_value(s.take(i)) >= 0,
    decreases s.len() - i,
{
    if i == s.len() {
        assert(s.take(i) =~= s);
        lemma_dec_value_nonneg(s);
    } else {
        lemma_dec_value_grows(s, i + 1);
        assert(s.take(i + 1).drop_last() =~= s.take(i));
        assert(is_dec_digit(s[i]));
        assert(dec_value(s.take(i + 1)) == dec_value(s.take(i)) * 10 + digit_val(s[i]));
        lemma_dec_value_nonneg(s.take(i));
    }
}

proof fn lemma_dec_value_nonneg(s: Seq<char>)
    requires
        all_dec_digits(s),
    ensures
        dec_value(s) >= 0,
    decreases s.len(),
{
    if s.len() > 0 {
        assert(all_dec_digits(s.drop_last())) by {
            assert(forall|j: int| 0 <= j < s.len() - 1 ==> s.drop_last()[j] == s[j]);
        }
        lemma_dec_value_nonneg(s.drop_last());
        assert(is_dec_digit(s.last()));
    }
}

/// Parses a decimal `u64`; mirrors `spec_parse_u64` exactly.
pub fn dec_to_u64(s: &str) -> (r: Option<u64>)
    ensures
        r == spec_parse_u64(s@),
{
    let n = s.unicode_len();
    if n == 0 {
        return None;
    }
    let mut acc: u64 = 0;
    let mut i: usize = 0;
    proof {
        assert(s@.take(0) =~= Seq::<char>::empty());
    }
    while i < n
        invariant
            i <= n,
            n == s@.len(),
            all_dec_digits(s@.take(i as int)),
            acc == dec_value(s@.take(i as int)),
        decreases n - i,
    {
        let c = s.get_char(i);
        if !('0' <= c && c <= '9') {
            assert(!is_dec_digit(s@[i as int]));
            return None;
        }
        let d: u64 = (c as u32 - '0' as u32) as u64;
        assert(d == digit_val(s@[i as int]));
        proof {
            assert(s@.take(i + 1).drop_last() =~= s@.take(i as int));
            assert(s@.take(i + 1).last() == s@[i as int]);
        }
        match acc.checked_mul(10) {
            Some(m) => {
                match m.checked_add(d) {
                    Some(v) => {
                        acc = v;
                    },
                    None => {
                        proof {
                            if all_dec_digits(s@) && dec_value(s@) <= u64::MAX {
                                lemma_dec_value_grows(s@, i + 1);
                            }
                        }
                        return None;
                    },
                }
            },
            None => {
                proof {
                    if all_dec_digits(s@) && dec_value(s@) <= u64::MAX {
                        lemma_dec_value_grows(s@, i + 1);
                        assert(digit_val(s@[i as int]) >= 0);
                    }
                }
                return None;
            },
        }
        i += 1;
    }
    proof {
        assert(s@.take(n as int) =~= s@);
    }
    Some(acc)
}

/// Writing a number and reading it back returns the same number.
pub proof fn lemma_dec_roundtrip(n: u64)
    ensures
        spec_parse_u64(dec_digits(n as nat)) == Some(n),
    decreases n,
{
    lemma_dec_digits_shape(n as nat);
    lemma_dec_digits_value(n as nat);
}

/// `dec_digits` writes only digits, at least one.
pub(crate) proof fn lemma_dec_digits_shape(n: nat)
    ensures
        dec_digits(n).len() >= 1,
        all_dec_digits(dec_digits(n)),
    decreases n,
{
    if n >= 10 {
        lemma_dec_digits_shape(n / 10);
        let a = dec_digits(n / 10);
        let w = dec_digits(n);
        assert(w == a + seq![digit_char((n % 10) as int)]);
        assert(forall|j: int| 0 <= j < a.len() ==> w[j] == a[j]);
        assert(is_dec_digit(w[w.len() - 1]));
    }
}

pub(crate) proof fn lemma_dec_digits_value(n: nat)
    ensures
        dec_value(dec_digits(n)) == n,
    decreases n,
{
    if n < 10 {
        let w = dec_digits(n);
        assert(w == seq![digit_char(n as int)]);
        assert(w.len() == 1);
        assert(w.last() == digit_char(n as int));
        assert(w.drop_last() =~= Seq::<char>::empty());
        assert(dec_value(w) == dec_value(w.drop_last()) * 10 + digit_val(w.last()));
        assert(dec_value(w.drop_last()) == 0);
        assert(digit_val(digit_char(n as int)) == n);
    } else {
        lemma_dec_digits_value(n / 10);
        let a = dec_digits(n / 10);
        let w = dec_digits(n);
        assert(w.drop_last() =~= a);
        assert(digit_val(w.last()) == n % 10);
    }
}

/// The character for one hexadecimal digit (lower case).
pub open spec fn hex_digit_char(d: int) -> char {
    if d < 10 {
        digit_char(d)
    } else if d == 10 { 'a' }
    else if d == 11 { 'b' }
    else if d == 12 { 'c' }
    else if d == 13 { 'd' }
    else if d == 14 { 'e' }
    else { 'f' }
}

fn hex_digit_str(d: u8) -> (r: &'static str)
    requires
        d < 16,
    ensures
        r@ =~= seq![hex_digit_char(d as int)],
{
    if d < 10 {
        digit_str(d)
    } else {
        proof {
            reveal_strlit("a");
            reveal_strlit("b");
            reveal_strlit("c");
            reveal_strlit("d");
            reveal_strlit("e");
            reveal_strlit("f");
        }
        match d {
            10 => "a",
            11 => "b",
            12 => "c",
            13 => "d",
            14 => "e",
            _ => "f",
        }
    }
}

/// Exactly `k` hexadecimal digits of `v`, most significant first,
/// leading zeroes kept.
pub open spec fn hex_fixed(v: nat, k: nat) -> Seq<char>
    decreases k,
{
    if k == 0 {
        Seq::empty()
    } else {
        hex_fixed(v / 16, (k - 1) as nat) + seq![hex_digit_char((v % 16) as int)]
    }
}

/// Writes the low `k` nibbles of `v`, most significant first.
pub fn hex_fixed_text(v: u128, k: usize) -> (r: String)
    ensures
        r@ == hex_fixed(v as nat, k as nat),
    decreases k,
{
    if k == 0 {
        String::new()
    } else {
        let mut s = hex_fixed_text(v / 16, k - 1);
        s.append(hex_digit_str((v % 16) as u8));
        proof {
            assert(s@ =~= hex_fixed(v as nat, k as nat));
        }
        s
    }
}

/// Is `c` a lower-case hexadecimal digit?
pub open spec fn is_hex_digit(c: char) -> bool {
    ('0' <= c && c <= '9') || ('a' <= c && c <= 'f')
}

/// The numeric value of a lower-case hexadecimal digit character.
pub open spec fn hex_val(c: char) -> int {
    if '0' <= c && c <= '9' {
        c as int - '0' as int
    } else {
        c as int - 'a' as int + 10
    }
}

/// The number that a lower-case hex digit string denotes.
pub open spec fn hex_value(s: Seq<char>) -> int
    decreases s.len(),
{
    if s.len() == 0 {
        0
    } else {
        hex_value(s.drop_last()) * 16 + hex_val(s.last())
    }
}

/// Every character of `s` is a lower-case hex digit.
pub open spec fn all_hex_digits(s: Seq<char>) -> bool {
    forall|j: int| 0 <= j < s.len() ==> is_hex_digit(#[trigger] s[j])
}

/// Is `c` a hexadecimal digit of either case?
pub open spec fn is_hex_digit_ci(c: char) -> bool {
    is_hex_digit(c) || ('A' <= c && c <= 'F')
}

/// The numeric value of a hexadecimal digit of either case.
pub open spec fn hex_val_ci(c: char) -> int {
    if 'A' <= c && c <= 'F' {
        c as int - 'A' as int + 10
    } else {
        hex_val(c)
    }
}

/// The number that a hex digit string of either case denotes.
pub open spec fn hex_value_ci(s: Seq<char>) -> int
    decreases s.len(),
{
    if s.len() == 0 {
        0
    } else {
        hex_value_ci(s.drop_last()) * 16 + hex_val_ci(s.last())
    }
}

/// Every character of `s` is a hex digit of either case.
pub open spec fn all_hex_digits_ci(s: Seq<char>) -> bool {
    forall|j: int| 0 <= j < s.len() ==> is_hex_digit_ci(#[trigger] s[j])
}

/// An identifier written the canonical way: 32 lower-case hex digits in
/// groups of 8, 4, 4, 4 and 12, separated by hyphens.
pub open spec fn id_chars(id: u128) -> Seq<char> {
    let h = hex_fixed(id as nat, 32);
    h.take(8) + seq!['-'] + h.subrange(8, 12) + seq!['-'] + h.subrange(12, 16) + seq!['-']
        + h.subrange(16, 20) + seq!['-'] + h.subrange(20, 32)
}

/// The 32 hex digits of an identifier text, hyphens removed.
pub open spec fn id_digits(s: Seq<char>) -> Seq<char> {
    s.take(8) + s.subrange(9, 13) + s.subrange(14, 18) + s.subrange(19, 23) + s.subrange(24, 36)
}

/// What parsing an identifier yields: the value when the text has the
/// hyphenated shape with hex digits of either case, nothing otherwise.
pub open spec fn spec_parse_id(s: Seq<char>) -> Option<u128> {
    if s.len() == 36 && s[8] == '-' && s[13] == '-' && s[18] == '-' && s[23] == '-'
        && all_hex_digits_ci(id_digits(s)) {
        Some(hex_value_ci(id_digits(s)) as u128)
    } else {
        None
    }
}

/// `hex_fixed` writes only hex digits.
proof fn lemma_hex_fixed_digits(v: nat, k: nat)
    ensures
        hex_fixed(v, k).len() == k,
        all_hex_digits(hex_fixed(v, k)),
    decreases k,
{
    if k > 0 {
        lemma_hex_fixed_digits(v / 16, (k - 1) as nat);
        let a = hex_fixed(v / 16, (k - 1) as nat);
        let w = hex_fixed(v, k);
        assert(w == a + seq![hex_digit_char((v % 16) as int)]);
        assert(forall|j: int| 0 <= j < a.len() ==> w[j] == a[j]);
        assert(is_hex_digit(w[w.len() - 1]));
    }
}

/// Sixteen to the power `k`.
pub open spec fn pow16(k: nat) -> int
    decreases k,
{
    if k == 0 {
        1
    } else {
        16 * pow16((k - 1) as nat)
    }
}

/// The value of a fixed-width hex rendering is the value written, as long
/// as it fits the width.
proof fn lemma_hex_fixed_value(v: nat, k: nat)
    requires
        v < pow16(k),
    ensures
        hex_value(hex_fixed(v, k)) == v,
    decreases k,
{
    if k == 0 {
        assert(hex_fixed(v, 0) == Seq::<char>::empty());
    } else {
        assert(v / 16 < pow16((k - 1) as nat)) by {
            assert(pow16(k) == 16 * pow16((k - 1) as nat));
        }
        lemma_hex_fixed_value(v / 16, (k - 1) as nat);
        let a = hex_fixed(v / 16, (k - 1) as nat);
        let w = hex_fixed(v, k);
        assert(w.drop_last() =~= a);
        assert(hex_val(w.last()) == v % 16);
    }
}

/// An identifier text is always 36 characters long.
pub proof fn lemma_id_text_len(id: u128)
    ensures
        id_chars(id).len() == 36,
{
    lemma_hex_fixed_digits(id as nat, 32);
}

/// Writes an identifier the canonical way.
pub fn id_to_text(id: u128) -> (r: String)
    ensures
        r@ == id_chars(id),
{
    let h = hex_fixed_text(id, 32);
    proof {
        lemma_hex_fixed_digits(id as nat, 32);
        reveal_strlit("-");
    }
    let mut r = String::new();
    r.append(h.as_str().substring_char(0, 8));
    r.append("-");
    r.append(h.as_str().substring_char(8, 12));
    r.append("-");
    r.append(h.as_str().substring_char(12, 16));
    r.append("-");
    r.append(h.as_str().substring_char(16, 20));
    r.append("-");
    r.append(h.as_str().substring_char(20, 32));
    proof {
        assert(h@.subrange(0, 8) =~= h@.take(8));
        assert(r@ =~= id_chars(id));
    }
    r
}

/// Reads one hex digit; the value when it is one, nothing otherwise.
pub(crate) fn read_hex_digit(c: char) -> (r: Option<u8>)
    ensures
        r is Some <==> is_hex_digit(c),
        r matches Some(v) ==> v == hex_val(c) && v < 16,
{
    if '0' <= c && c <= '9' {
        Some((c as u32 - '0' as u32) as u8)
    } else if 'a' <= c && c <= 'f' {
        Some((c as u32 - 'a' as u32 + 10) as u8)
    } else {
        None
    }
}

/// Reads one hex digit of either case; the value when it is one, nothing
/// otherwise.
fn read_hex_digit_ci(c: char) -> (r: Option<u8>)
    ensures
        r is Some <==> is_hex_digit_ci(c),
        r matches Some(v) ==> v == hex_val_ci(c) && v < 16,
{
    if '0' <= c && c <= '9' {
        Some((c as u32 - '0' as u32) as u8)
    } else if 'a' <= c && c <= 'f' {
        Some((c as u32 - 'a' as u32 + 10) as u8)
    } else if 'A' <= c && c <= 'F' {
        Some((c as u32 - 'A' as u32 + 10) as u8)
    } else {
        None
    }
}

/// Parses a hyphenated identifier, hex digits of either case; mirrors
/// `spec_parse_id`.
pub fn text_to_id(s: &str) -> (r: Option<u128>)
    ensures
        r == spec_parse_id(s@),
{
    let n = s.unicode_len();
    if n != 36 {
        return None;
    }
    if !(s.get_char(8) == '-' && s.get_char(13) == '-' && s.get_char(18) == '-' && s.get_char(23)
        == '-') {
        return None;
    }
    let ghost dd = id_digits(s@);
    proof {
        assert(dd.len() == 32);
    }
    let mut acc: u128 = 0;
    let mut i: usize = 0;
    proof {
        assert(dd.take(0) =~= Seq::<char>::empty());
        lemma_pow16_bounds();
    }
    while i < 32
        invariant
            i <= 32,
            s@.len() == 36,
            dd == id_digits(s@),
            all_hex_digits_ci(dd.take(i as int)),
            acc == hex_value_ci(dd.take(i as int)),
            acc < pow16(i as nat),
            pow16(32) == 0x1_0000_0000_0000_0000_0000_0000_0000_0000,
            forall|k: nat| k <= 32 ==> #[trigger] pow16(k) <= pow16(32),
        decreases 32 - i,
    {
        // The digit at logical position i sits past the hyphens.
        let pos: usize = if i < 8 {
            i
        } else if i < 12 {
            i + 1
        } else if i < 16 {
            i + 2
        } else if i < 20 {
            i + 3
        } else {
            i + 4
        };
        let c = s.get_char(pos);
        proof {
            assert(dd[i as int] == s@[pos as int]);
        }
        match read_hex_digit_ci(c) {
            Some(v) => {
                proof {
                    assert(dd.take(i + 1).drop_last() =~= dd.take(i as int));
                    assert(dd.take(i + 1).last() == dd[i as int]);
                    assert(pow16((i + 1) as nat) == 16 * pow16(i as nat));
                    assert(acc * 16 + v < pow16((i + 1) as nat)) by {
                        assert(acc + 1 <= pow16(i as nat));
                        assert((acc + 1) * 16 <= pow16(i as nat) * 16) by (nonlinear_arith)
                            requires
                                acc + 1 <= pow16(i as nat),
                        ;
                    }
                    assert(pow16((i + 1) as nat) <= pow16(32));
                }
                acc = acc * 16 + (v as u128);
            },
            None => {
                assert(!is_hex_digit_ci(dd[i as int]));
                return None;
            },
        }
        i += 1;
    }
    proof {
        assert(dd.take(32) =~= dd);
    }
    Some(acc)
}

/// Helper facts about `pow16` up to width 32.
proof fn lemma_pow16_bounds()
    ensures
        pow16(32) == 0x1_0000_0000_0000_0000_0000_0000_0000_0000,
        forall|k: nat| k <= 32 ==> #[trigger] pow16(k) <= pow16(32),
{
    assert(pow16(32) == 0x1_0000_0000_0000_0000_0000_0000_0000_0000) by {
        reveal_with_fuel(pow16, 33);
    }
    assert forall|k: nat| k <= 32 implies #[trigger] pow16(k) <= pow16(32) by {
        lemma_pow16_mono(k, 32);
    }
}

proof fn lemma_pow16_mono(a: nat, b: nat)
    requires
        a <= b,
    ensures
        pow16(a) <= pow16(b),
        pow16(a) >= 1,
    decreases b,
{
    if a == b {
        lemma_pow16_pos(a);
    } else {
        lemma_pow16_mono(a, (b - 1) as nat);
        lemma_pow16_pos((b - 1) as nat);
    }
}

proof fn lemma_pow16_pos(k: nat)
    ensures
        pow16(k) >= 1,
    decreases k,
{
    if k > 0 {
        lemma_pow16_pos((k - 1) as nat);
    }
}

/// Writing an identifier and reading it back returns the same identifier.
pub proof fn lemma_id_roundtrip(id: u128)
    ensures
        spec_parse_id(id_chars(id)) == Some(id),
{
    let h = hex_fixed(id as nat, 32);
    lemma_hex_fixed_digits(id as nat, 32);
    let s = id_chars(id);
    assert(s.len() == 36);
    assert(s[8] == '-' && s[13] == '-' && s[18] == '-' && s[23] == '-');
    assert(id_digits(s) =~= h);
    lemma_pow16_bounds();
    assert((id as nat) < pow16(32));
    lemma_hex_fixed_value_ci(id as nat, 32);
    assert(hex_value_ci(id_digits(s)) == id as nat);
    assert(all_hex_digits_ci(id_digits(s))) by {
        assert(forall|j: int| 0 <= j < h.len() ==> is_hex_digit(#[trigger] h[j]));
    }
}

/// The either-case value of a lower-case rendering is the value written.
proof fn lemma_hex_fixed_value_ci(v: nat, k: nat)
    requires
        v < pow16(k),
    ensures
        hex_value_ci(hex_fixed(v, k)) == v,
    decreases k,
{
    if k > 0 {
        assert(v / 16 < pow16((k - 1) as nat)) by {
            assert(pow16(k) == 16 * pow16((k - 1) as nat));
        }
        lemma_hex_fixed_value_ci(v / 16, (k - 1) as nat);
        let a = hex_fixed(v / 16, (k - 1) as nat);
        let w = hex_fixed(v, k);
        assert(w.drop_last() =~= a);
        assert(hex_val_ci(w.last()) == v % 16);
    } else {
        assert(hex_fixed(v, 0) == Seq::<char>::empty());
    }
}

/// Lower-case hex of a byte string, two digits per byte.
pub open spec fn hex_of_bytes(b: Seq<u8>) -> Seq<char>
    decreases b.len(),
{
    if b.len() == 0 {
        Seq::empty()
    } else {
        hex_of_bytes(b.drop_last()) + seq![
            hex_digit_char(b.last() as int / 16),
            hex_digit_char(b.last() as int % 16),
        ]
    }
}

/// Hex doubles the length: two digits per byte.
pub proof fn lemma_hex_of_bytes_len(b: Seq<u8>)
    ensures
        hex_of_bytes(b).len() == 2 * b.len(),
    decreases b.len(),
{
    if b.len() > 0 {
        lemma_hex_of_bytes_len(b.drop_last());
    }
}

/// Writes a byte string in lower-case hex.
pub fn bytes_to_hex(b: &Vec<u8>) -> (r: String)
    ensures
        r@ == hex_of_bytes(b@),
{
    let mut r = String::new();
    let mut i: usize = 0;
    proof {
        assert(b@.take(0) =~= Seq::<u8>::empty());
    }
    while i < b.len()
        invariant
            i <= b.len(),
            r@ == hex_of_bytes(b@.take(i as int)),
        decreases b.len() - i,
    {
        let byte = b[i];
        r.append(hex_digit_str(byte / 16));
        r.append(hex_digit_str(byte % 16));
        proof {
            assert(b@.take(i + 1).drop_last() =~= b@.take(i as int));
            assert(b@.take(i + 1).last() == b@[i as int]);
        }
        i += 1;
    }
    proof {
        assert(b@.take(b@.len() as int) =~= b@);
    }
    r
}

} // verus!
