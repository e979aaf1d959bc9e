//! Field-level text encodings: decimal values with six fraction digits,
//! optional indices, and names as hexadecimal of their UTF-8 bytes, each
//! with the guarantee that what is written reads back.
use crate::text::{
    all_digits, decimal, digit_char, digits_field, digits_value, free_of, is_digit, join,
    lemma_decimal, lemma_decimal_len, lemma_digit_char, lemma_pow10_ten, parse_digits,
    push_decimal, split_at_char, views,
};
use vstd::prelude::*;
use vstd::string::{StrSliceExecFns, StringExecFns, StringSliceAdditionalSpecFns};
use vstd::utf8::{encode_utf8, encode_utf8_decode_utf8, encode_utf8_valid_utf8, valid_utf8};

verus! {

/// Relies on std::str::from_utf8: it succeeds exactly on valid UTF-8 and
/// then reads the same bytes as text.
#[verifier::external_body]
pub(crate) fn utf8_text(bytes: &[u8]) -> (r: Option<&str>)
    ensures
        r is Some == valid_utf8(bytes@),
        r matches Some(s) ==> s.spec_bytes() == bytes@,
{
    std::str::from_utf8(bytes).ok()
}

/// Whether a field spells exactly the word `w`.
pub(crate) fn is_word(field: &Vec<char>, w: &str) -> (r: bool)
    ensures
        r == (field@ == w@),
{
    let n = w.unicode_len();
    if field.len() != n {
        return false;
    }
    let mut i: usize = 0;
    while i < n
        invariant
            n == w@.len(),
            field@.len() == n,
            i <= n,
            forall|j: int| 0 <= j < i ==> field@[j] == w@[j],
        decreases n - i,
    {
        if field[i] != w.get_char(i) {
            return false;
        }
        i = i + 1;
    }
    assert(field@ =~= w@);
    true
}

pub open spec fn hex_digit(d: int) -> char {
    if d < 10 {
        digit_char(d)
    } else if d == 10 {
        'A'
    } else if d == 11 {
        'B'
    } else if d == 12 {
        'C'
    } else if d == 13 {
        'D'
    } else if d == 14 {
        'E'
    } else {
        'F'
    }
}

pub open spec fn hex_value(c: char) -> int {
    if '0' <= c <= '9' {
        c as int - '0' as int
    } else if 'A' <= c <= 'F' {
        c as int - 'A' as int + 10
    } else {
        -1
    }
}

/// Two upper-case hexadecimal digits per byte.
pub open spec fn hex(bytes: Seq<u8>) -> Seq<char>
    decreases bytes.len(),
{
    if bytes.len() == 0 {
        Seq::empty()
    } else {
        hex(bytes.drop_last()) + seq![
            hex_digit(bytes.last() as int / 16),
            hex_digit(bytes.last() as int % 16),
        ]
    }
}

pub(crate) proof fn lemma_hex_digit(d: int)
    requires
        0 <= d < 16,
    ensures
        hex_value(hex_digit(d)) == d,
{
    if d < 10 {
        lemma_digit_char(d);
    }
}

pub(crate) proof fn lemma_hex_len(bytes: Seq<u8>)
    ensures
        hex(bytes).len() == 2 * bytes.len(),
    decreases bytes.len(),
{
    if bytes.len() > 0 {
        lemma_hex_len(bytes.drop_last());
    }
}

pub(crate) fn hex_str(d: u8) -> (r: &'static str)
    requires
        d < 16,
    ensures
        r@ == seq![hex_digit(d as int)],
{
    if d < 10 {
        return crate::text::digit_str(d as u64);
    }
    match d {
        10 => {
            proof {
                reveal_strlit("A");
            }
            "A"
        },
        11 => {
            proof {
                reveal_strlit("B");
            }
            "B"
        },
        12 => {
            proof {
                reveal_strlit("C");
            }
            "C"
        },
        13 => {
            proof {
                reveal_strlit("D");
            }
            "D"
        },
        14 => {
            proof {
                reveal_strlit("E");
            }
            "E"
        },
        _ => {
            proof {
                reveal_strlit("F");
            }
            "F"
        },
    }
}

/// Appends the hexadecimal form of the UTF-8 bytes of `text`.
pub(crate) fn push_hex_text(out: &mut String, text: &str)
    ensures
        final(out)@ == old(out)@ + hex(encode_utf8(text@)),
{
    let bytes = text.as_bytes();
    let mut i: usize = 0;
    while i < bytes.len()
        invariant
            bytes@ == encode_utf8(text@),
            i <= bytes@.len(),
            out@ == old(out)@ + hex(bytes@.take(i as int)),
        decreases bytes@.len() - i,
    {
        let b = bytes[i];
        out.append(hex_str(b / 16));
        out.append(hex_str(b % 16));
        assert(bytes@.take(i as int + 1).drop_last() =~= bytes@.take(i as int));
        i = i + 1;
        assert(out@ =~= old(out)@ + hex(bytes@.take(i as int)));
    }
    assert(bytes@.take(bytes@.len() as int) =~= bytes@);
}

pub(crate) fn hex_char_value(c: char) -> (r: Option<u8>)
    ensures
        r matches Some(v) ==> v == hex_value(c) && v < 16 && hex_digit(v as int) == c,
        r is None ==> hex_value(c) < 0,
{
    if '0' <= c && c <= '9' {
        let v = (c as u32 - '0' as u32) as u8;
        proof {
            lemma_digit_char(v as int);
        }
        Some(v)
    } else if 'A' <= c && c <= 'F' {
        Some((c as u32 - 'A' as u32 + 10) as u8)
    } else {
        None
    }
}

/// The bytes that a field of hexadecimal digit pairs spells: exactly the
/// fields that `hex` writes are read, each back to its bytes.
pub(crate) fn parse_hex(field: &Vec<char>) -> (r: Option<Vec<u8>>)
    ensures
        r matches Some(v) ==> hex(v@) == field@,
        forall|b: Seq<u8>| #[trigger] hex(b) == field@ ==> (r matches Some(v) && v@ == b),
{
    proof {
        assert forall|b: Seq<u8>| #[trigger] hex(b) == field@ implies field@.len() % 2 == 0 by {
            lemma_hex_len(b);
        }
    }
    if field.len() % 2 != 0 {
        return None;
    }
    let mut out: Vec<u8> = Vec::new();
    let mut i: usize = 0;
    while i < field.len()
        invariant
            field@.len() % 2 == 0,
            i <= field@.len(),
            i % 2 == 0,
            out@.len() * 2 == i,
            hex(out@) == field@.take(i as int),
            forall|b: Seq<u8>| #[trigger] hex(b) == field@ ==> b.take(out@.len() as int) == out@,
        decreases field@.len() - i,
    {
        let hi = match hex_char_value(field[i]) {
            Some(v) => v,
            None => {
                proof {
                    assert forall|b: Seq<u8>| #[trigger] hex(b) == field@ implies false by {
                        lemma_hex_len(b);
                        lemma_hex_prefix(b, out@.len() as int + 1);
                        let x = b[out@.len() as int];
                        lemma_hex_digit(x as int / 16);
                        assert(field@[i as int] == hex(b.take(out@.len() as int + 1))[i as int]);
                    }
                }
                return None;
            },
        };
        let lo = match hex_char_value(field[i + 1]) {
            Some(v) => v,
            None => {
                proof {
                    assert forall|b: Seq<u8>| #[trigger] hex(b) == field@ implies false by {
                        lemma_hex_len(b);
                        lemma_hex_prefix(b, out@.len() as int + 1);
                        let x = b[out@.len() as int];
                        lemma_hex_digit(x as int % 16);
                        assert(field@[i + 1] == hex(b.take(out@.len() as int + 1))[i + 1]);
                    }
                }
                return None;
            },
        };
        let byte: u8 = hi * 16 + lo;
        let ghost before = out@;
        out.push(byte);
        proof {
            assert(out@.drop_last() =~= before);
            assert(hex(out@) =~= field@.take(i as int + 2));
            assert forall|b: Seq<u8>| #[trigger] hex(b) == field@ implies b.take(out@.len() as int) == out@ by {
                lemma_hex_len(b);
                lemma_hex_prefix(b, out@.len() as int);
                let x = b[before.len() as int];
                lemma_hex_digit(x as int / 16);
                lemma_hex_digit(x as int % 16);
                assert(field@[i as int] == hex(b.take(out@.len() as int))[i as int]);
                assert(field@[i + 1] == hex(b.take(out@.len() as int))[i + 1]);
                assert(b.take(out@.len() as int).drop_last() =~= b.take(before.len() as int));
                assert(b.take(out@.len() as int) =~= out@);
            }
        }
        i = i + 2;
    }
    assert(field@.take(field@.len() as int) =~= field@);
    proof {
        assert forall|b: Seq<u8>| #[trigger] hex(b) == field@ implies out@ == b by {
            lemma_hex_len(b);
            assert(b.take(b.len() as int) =~= b);
        }
    }
    Some(out)
}

/// The hexadecimal form of a prefix is a prefix of the hexadecimal form.
pub(crate) proof fn lemma_hex_prefix(b: Seq<u8>, k: int)
    requires
        0 <= k <= b.len(),
    ensures
        hex(b.take(k)) == hex(b).take(2 * k),
        hex(b.take(k)).len() == 2 * k,
    decreases b.len() - k,
{
    lemma_hex_len(b);
    lemma_hex_len(b.take(k));
    if k == b.len() {
        assert(b.take(k) =~= b);
        assert(hex(b).take(2 * k) =~= hex(b));
    } else {
        lemma_hex_prefix(b, k + 1);
        assert(b.take(k + 1).drop_last() =~= b.take(k));
        assert(hex(b.take(k)) =~= hex(b.take(k + 1)).take(2 * k));
    }
}

/// Reads a name written by `push_hex_text`.
pub(crate) fn parse_hex_text(field: &Vec<char>) -> (r: Option<String>)
    ensures
        forall|t: Seq<char>| #[trigger] hex(encode_utf8(t)) == field@ ==> (r matches Some(s) && s@ == t),
{
    let bytes = match parse_hex(field) {
        Some(b) => b,
        None => {
            return None;
        },
    };
    proof {
        assert forall|t: Seq<char>| #[trigger] hex(encode_utf8(t)) == field@ implies valid_utf8(bytes@) by {
            encode_utf8_valid_utf8(t);
        }
    }
    match utf8_text(bytes.as_slice()) {
        Some(s) => {
            proof {
                assert forall|t: Seq<char>| #[trigger] hex(encode_utf8(t)) == field@ implies s@ == t by {
                    encode_utf8_decode_utf8(t);
                    encode_utf8_decode_utf8(s@);
                }
            }
            Some(String::from_str(s))
        },
        None => None,
    }
}

/// The copy of `v` without its first character.
pub(crate) fn tail(v: &Vec<char>) -> (r: Vec<char>)
    requires
        v@.len() > 0,
    ensures
        r@ == v@.drop_first(),
{
    let mut r: Vec<char> = Vec::new();
    let mut i: usize = 1;
    while i < v.len()
        invariant
            1 <= i <= v@.len(),
            r@ == v@.subrange(1, i as int),
        decreases v@.len() - i,
    {
        r.push(v[i]);
        i = i + 1;
        assert(r@ =~= v@.subrange(1, i as int));
    }
    assert(r@ =~= v@.drop_first());
    r
}

/// An optional index: its decimal digits, or `-1` for none.
pub open spec fn index_text(x: Option<int>) -> Seq<char> {
    match x {
        Some(n) => decimal(n as nat),
        None => "-1"@,
    }
}

/// Reads an optional index: decimal digits, or a negative number for none.
pub(crate) fn parse_index_field(field: &Vec<char>) -> (r: Option<Option<u64>>)
    ensures
        forall|x: Option<int>|
            #[trigger] index_text(x) == field@ && (x matches Some(n) ==> 0 <= n < 10_000_000_000)
                ==> r == Some(
                match x {
                    Some(n) => Some(n as u64),
                    None => None::<u64>,
                },
            ),
{
    proof {
        reveal_strlit("-1");
        reveal_strlit("1");
        lemma_pow10_ten();
    }
    if field.len() > 0 && field[0] == '-' {
        let digits = tail(field);
        proof {
            assert(("1"@) == seq!['1']);
            lemma_decimal(1);
            assert(decimal(1) =~= seq!['1']);
            assert forall|x: Option<int>|
                #[trigger] index_text(x) == field@ && (x matches Some(n) ==> 0 <= n < 10_000_000_000) implies x is None by {
                if let Some(n) = x {
                    lemma_decimal(n as nat);
                    assert(is_digit(field@[0]));
                }
            }
        }
        return match parse_digits(&digits) {
            Some(_) => Some(None),
            None => None,
        };
    }
    let v = parse_digits(field);
    proof {
        assert forall|x: Option<int>|
            #[trigger] index_text(x) == field@ && (x matches Some(n) ==> 0 <= n < 10_000_000_000) implies v == Some(
            x->Some_0 as u64) && x is Some by {
            if let Some(n) = x {
                lemma_decimal(n as nat);
                lemma_decimal_len(n as nat, 10);
            } else {
                assert(field@[0] == '-');
            }
        }
    }
    match v {
        Some(n) => Some(Some(n)),
        None => None,
    }
}

/// Six fraction digits, most significant first.
pub open spec fn six_digits(f: int) -> Seq<char> {
    seq![
        digit_char(f / 100000 % 10),
        digit_char(f / 10000 % 10),
        digit_char(f / 1000 % 10),
        digit_char(f / 100 % 10),
        digit_char(f / 10 % 10),
        digit_char(f % 10),
    ]
}

/// A value in millionths as a decimal with six fraction digits.
pub open spec fn micro_text(v: int) -> Seq<char> {
    let m = if v < 0 {
        -v
    } else {
        v
    };
    let body = decimal((m / 1_000_000) as nat) + seq!['.'] + six_digits(m % 1_000_000);
    if v < 0 {
        seq!['-'] + body
    } else {
        body
    }
}

/// Largest magnitude of a value in millionths that the text form carries.
pub const MICRO_LIMIT: i64 = 4_294_967_295;

#[verifier::spinoff_prover]
#[verifier::rlimit(60)]
pub(crate) proof fn lemma_six_digits(f: int)
    requires
        0 <= f < 1_000_000,
    ensures
        six_digits(f).len() == 6,
        all_digits(six_digits(f)),
        digits_value(six_digits(f)) == f,
        forall|i: int| 0 <= i < 6 ==> #[trigger] six_digits(f)[i] != '.' && six_digits(f)[i] != '-',
{
    let s = six_digits(f);
    lemma_digit_char(f / 100000 % 10);
    lemma_digit_char(f / 10000 % 10);
    lemma_digit_char(f / 1000 % 10);
    lemma_digit_char(f / 100 % 10);
    lemma_digit_char(f / 10 % 10);
    lemma_digit_char(f % 10);
    assert(s.take(5) =~= s.drop_last());
    assert(s.take(5).drop_last() =~= s.take(4));
    assert(s.take(4).drop_last() =~= s.take(3));
    assert(s.take(3).drop_last() =~= s.take(2));
    assert(s.take(2).drop_last() =~= s.take(1));
    assert(s.take(1).drop_last() =~= Seq::<char>::empty());
    assert(digits_value(Seq::<char>::empty()) == 0);
    assert(digits_value(s.take(1)) == f / 100000 % 10);
    assert(digits_value(s.take(2)) == (f / 100000 % 10) * 10 + f / 10000 % 10);
    assert(digits_value(s.take(3)) == digits_value(s.take(2)) * 10 + f / 1000 % 10);
    assert(digits_value(s.take(4)) == digits_value(s.take(3)) * 10 + f / 100 % 10);
    assert(digits_value(s.take(5)) == digits_value(s.take(4)) * 10 + f / 10 % 10);
    assert(digits_value(s) == digits_value(s.take(5)) * 10 + f % 10);
    assert(digits_value(s) == f);
}

pub(crate) fn push_six_digits(out: &mut String, f: u64)
    requires
        f < 1_000_000,
    ensures
        final(out)@ == old(out)@ + six_digits(f as int),
{
    out.append(crate::text::digit_str(f / 100000 % 10));
    out.append(crate::text::digit_str(f / 10000 % 10));
    out.append(crate::text::digit_str(f / 1000 % 10));
    out.append(crate::text::digit_str(f / 100 % 10));
    out.append(crate::text::digit_str(f / 10 % 10));
    out.append(crate::text::digit_str(f % 10));
    assert(out@ =~= old(out)@ + six_digits(f as int));
}

/// Appends a value in millionths as a decimal with six fraction digits.
pub(crate) fn push_micro(out: &mut String, v: i64)
    requires
        -MICRO_LIMIT <= v <= MICRO_LIMIT,
    ensures
        final(out)@ == old(out)@ + micro_text(v as int),
{
    let m: u64 = if v < 0 {
        (-v) as u64
    } else {
        v as u64
    };
    if v < 0 {
        out.append("-");
    }
    let ghost mid = out@;
    push_decimal(out, m / 1_000_000);
    out.append(".");
    push_six_digits(out, m % 1_000_000);
    proof {
        reveal_strlit("-");
        reveal_strlit(".");
    }
    assert(out@ =~= old(out)@ + micro_text(v as int));
}

pub open spec fn magnitude(v: int) -> int {
    if v < 0 {
        -v
    } else {
        v
    }
}

/// The part of `micro_text(v)` before the point.
pub open spec fn micro_whole(v: int) -> Seq<char> {
    if v < 0 {
        seq!['-'] + decimal((magnitude(v) / 1_000_000) as nat)
    } else {
        decimal((magnitude(v) / 1_000_000) as nat)
    }
}

pub(crate) proof fn lemma_micro_parts(v: int)
    requires
        -MICRO_LIMIT <= v <= MICRO_LIMIT,
    ensures
        micro_text(v) == join(seq![micro_whole(v), six_digits(magnitude(v) % 1_000_000)], '.'),
        crate::text::all_free_of(seq![micro_whole(v), six_digits(magnitude(v) % 1_000_000)], '.'),
        micro_whole(v).len() > 0,
        (micro_whole(v)[0] == '-') == (v < 0),
        v < 0 ==> micro_whole(v).drop_first() == decimal((magnitude(v) / 1_000_000) as nat),
        digits_field(decimal((magnitude(v) / 1_000_000) as nat)) == Some(magnitude(v) / 1_000_000),
        digits_field(six_digits(magnitude(v) % 1_000_000)) == Some(magnitude(v) % 1_000_000),
        six_digits(magnitude(v) % 1_000_000).len() == 6,
{
    let q = (magnitude(v) / 1_000_000) as nat;
    let f = magnitude(v) % 1_000_000;
    let whole = micro_whole(v);
    let ps = seq![whole, six_digits(f)];
    lemma_decimal(q);
    lemma_pow10_ten();
    lemma_decimal_len(q, 10);
    lemma_six_digits(f);
    assert(ps.drop_last() =~= seq![whole]);
    assert(join(seq![whole], '.') == whole);
    assert(join(ps, '.') == join(ps.drop_last(), '.') + seq!['.'] + ps.last());
    assert(join(ps, '.') =~= micro_text(v));
    assert forall|j: int| 0 <= j < whole.len() implies whole[j] != '.' by {
        if v < 0 && j > 0 {
            assert(whole[j] == decimal(q)[j - 1]);
            assert(is_digit(decimal(q)[j - 1]));
        } else if v >= 0 {
            assert(is_digit(decimal(q)[j]));
        }
    }
    assert forall|i: int| 0 <= i < ps.len() implies crate::text::free_of(#[trigger] ps[i], '.') by {
    }
    if v < 0 {
        assert(whole.drop_first() =~= decimal(q));
    } else {
        assert(is_digit(decimal(q)[0]));
    }
}

/// Reads the part before the point: a sign and whole units.
pub(crate) fn parse_whole(whole: &Vec<char>) -> (r: Option<(bool, u64)>)
    ensures
        forall|v: int|
            -MICRO_LIMIT <= v <= MICRO_LIMIT && #[trigger] micro_whole(v) == whole@ ==> r == Some(
                (v < 0, (magnitude(v) / 1_000_000) as u64),
            ),
{
    let negative = whole.len() > 0 && whole[0] == '-';
    let digits = if negative {
        tail(whole)
    } else {
        whole.clone()
    };
    proof {
        assert forall|v: int|
            -MICRO_LIMIT <= v <= MICRO_LIMIT && #[trigger] micro_whole(v) == whole@ implies negative == (v < 0)
            && digits_field(digits@) == Some(magnitude(v) / 1_000_000) by {
            lemma_micro_parts(v);
        }
    }
    match parse_digits(&digits) {
        Some(u) => Some((negative, u)),
        None => None,
    }
}

/// Reads a decimal with six fraction digits as millionths.
pub(crate) fn parse_micro(field: &Vec<char>) -> (r: Option<i64>)
    ensures
        forall|v: int|
            #[trigger] micro_text(v) == field@ && -MICRO_LIMIT <= v <= MICRO_LIMIT ==> r == Some(v as i64),
{
    let parts = split_at_char(field, '.');
    proof {
        assert forall|v: int|
            #[trigger] micro_text(v) == field@ && -MICRO_LIMIT <= v <= MICRO_LIMIT implies views(parts@)
            == seq![micro_whole(v), six_digits(magnitude(v) % 1_000_000)] by {
            lemma_micro_parts(v);
        }
    }
    if parts.len() != 2 {
        return None;
    }
    let (negative, units) = match parse_whole(&parts[0]) {
        Some(w) => w,
        None => {
            return None;
        },
    };
    if parts[1].len() != 6 || units > 10_000 {
        return None;
    }
    let f = match parse_digits(&parts[1]) {
        Some(f) => f,
        None => {
            return None;
        },
    };
    let m: u64 = units * 1_000_000 + f;
    proof {
        assert forall|v: int|
            #[trigger] micro_text(v) == field@ && -MICRO_LIMIT <= v <= MICRO_LIMIT implies negative == (v < 0) && m
            == magnitude(v) by {
            lemma_micro_parts(v);
            assert(parts@[0]@ == micro_whole(v));
            assert(parts@[1]@ == six_digits(magnitude(v) % 1_000_000));
        }
    }
    if m > MICRO_LIMIT as u64 {
        return None;
    }
    if negative {
        Some(-(m as i64))
    } else {
        Some(m as i64)
    }
}

/// The characters of a text.
pub(crate) fn text_chars(text: &str) -> (r: Vec<char>)
    ensures
        r@ == text@,
{
    let n = text.unicode_len();
    let mut r: Vec<char> = Vec::new();
    let mut i: usize = 0;
    while i < n
        invariant
            n == text@.len(),
            i <= n,
            r@ == text@.take(i as int),
        decreases n - i,
    {
        r.push(text.get_char(i));
        i = i + 1;
        assert(r@ =~= text@.take(i as int));
    }
    assert(text@.take(n as int) =~= text@);
    r
}

/// Whether `line` begins with `w`.
pub(crate) fn starts_with(line: &Vec<char>, w: &str) -> (r: bool)
    ensures
        r == (w@.len() <= line@.len() && line@.take(w@.len() as int) == w@),
{
    let n = w.unicode_len();
    if line.len() < n {
        return false;
    }
    let mut i: usize = 0;
    while i < n
        invariant
            n == w@.len(),
            n <= line@.len(),
            i <= n,
            forall|j: int| 0 <= j < i ==> line@[j] == w@[j],
        decreases n - i,
    {
        if line[i] != w.get_char(i) {
            assert(line@.take(n as int)[i as int] != w@[i as int]);
            return false;
        }
        i = i + 1;
    }
    assert(line@.take(n as int) =~= w@);
    true
}

/// A join of two or more parts begins with the first part and a separator.
pub(crate) proof fn lemma_join_head(parts: Seq<Seq<char>>, sep: char)
    requires
        parts.len() >= 2,
    ensures
        join(parts, sep).len() > parts[0].len(),
        join(parts, sep).take(parts[0].len() as int + 1) == parts[0] + seq![sep],
    decreases parts.len(),
{
    let j = join(parts, sep);
    if parts.len() == 2 {
        assert(parts.drop_last() =~= seq![parts[0]]);
        assert(join(parts.drop_last(), sep) == parts[0]);
        assert(j.take(parts[0].len() as int + 1) =~= parts[0] + seq![sep]);
    } else {
        lemma_join_head(parts.drop_last(), sep);
        let k = parts[0].len() as int + 1;
        assert(join(parts.drop_last(), sep).take(k) =~= j.take(k));
    }
}

pub open spec fn is_hex_char(c: char) -> bool {
    ('0' <= c <= '9') || ('A' <= c <= 'F')
}

pub(crate) proof fn lemma_hex_chars(bytes: Seq<u8>)
    ensures
        forall|i: int| 0 <= i < hex(bytes).len() ==> is_hex_char(#[trigger] hex(bytes)[i]),
    decreases bytes.len(),
{
    if bytes.len() > 0 {
        lemma_hex_chars(bytes.drop_last());
        let b = bytes.last() as int;
        if b / 16 < 10 {
            lemma_digit_char(b / 16);
        }
        if b % 16 < 10 {
            lemma_digit_char(b % 16);
        }
        let h = hex(bytes);
        let p = hex(bytes.drop_last());
        assert forall|i: int| 0 <= i < h.len() implies is_hex_char(#[trigger] h[i]) by {
            if i < p.len() {
                assert(h[i] == p[i]);
            }
        }
    }
}

pub(crate) proof fn lemma_free_hex(bytes: Seq<u8>, sep: char)
    requires
        !is_hex_char(sep),
    ensures
        free_of(hex(bytes), sep),
{
    lemma_hex_chars(bytes);
}

pub(crate) proof fn lemma_free_decimal(n: nat, sep: char)
    requires
        !is_digit(sep),
    ensures
        free_of(decimal(n), sep),
{
    lemma_decimal(n);
}

pub(crate) proof fn lemma_free_micro(v: int, sep: char)
    requires
        -MICRO_LIMIT <= v <= MICRO_LIMIT,
        !is_digit(sep),
        sep != '.',
        sep != '-',
    ensures
        free_of(micro_text(v), sep),
{
    lemma_micro_parts(v);
    let ps = seq![micro_whole(v), six_digits(magnitude(v) % 1_000_000)];
    lemma_decimal((magnitude(v) / 1_000_000) as nat);
    lemma_six_digits(magnitude(v) % 1_000_000);
    let t = micro_text(v);
    assert(ps.drop_last() =~= seq![micro_whole(v)]);
    assert(t == micro_whole(v) + seq!['.'] + six_digits(magnitude(v) % 1_000_000));
    assert forall|i: int| 0 <= i < t.len() implies t[i] != sep by {
        let w = micro_whole(v);
        if i < w.len() {
            if v < 0 && i > 0 {
                assert(w[i] == decimal((magnitude(v) / 1_000_000) as nat)[i - 1]);
                assert(is_digit(decimal((magnitude(v) / 1_000_000) as nat)[i - 1]));
            } else if v >= 0 {
                assert(is_digit(decimal((magnitude(v) / 1_000_000) as nat)[i]));
            }
        } else if i > w.len() {
            assert(is_digit(six_digits(magnitude(v) % 1_000_000)[i - w.len() - 1]));
        }
    }
}

pub(crate) proof fn lemma_free_index(x: Option<int>, sep: char)
    requires
        x matches Some(n) ==> n >= 0,
        !is_digit(sep),
        sep != '-',
    ensures
        free_of(index_text(x), sep),
{
    reveal_strlit("-1");
    if let Some(n) = x {
        lemma_decimal(n as nat);
    }
}

} // verus!
