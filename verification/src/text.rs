//! Text helpers: UTF-8 validation, Unicode-whitespace trimming and integer
//! parsing as std does them, decimal rendering of integers, and ASCII
//! character classes.

use vstd::prelude::*;
use vstd::utf8::*;

verus! {

broadcast use {vstd::utf8::group_utf8_lib, vstd::string::group_string_axioms};

/// Unicode `White_Space` (the set `char::is_whitespace` and `str::trim` use).
pub open spec fn is_unicode_ws(c: char) -> bool {
    let u = c as u32;
    ||| 0x9 <= u <= 0xD
    ||| u == 0x20
    ||| u == 0x85
    ||| u == 0xA0
    ||| u == 0x1680
    ||| 0x2000 <= u <= 0x200A
    ||| u == 0x2028
    ||| u == 0x2029
    ||| u == 0x202F
    ||| u == 0x205F
    ||| u == 0x3000
}

/// `cs` without its leading Unicode whitespace.
pub open spec fn trim_start_ws(cs: Seq<char>) -> Seq<char>
    decreases cs.len(),
{
    if cs.len() > 0 && is_unicode_ws(cs[0]) {
        trim_start_ws(cs.drop_first())
    } else {
        cs
    }
}

/// `cs` without its trailing Unicode whitespace.
pub open spec fn trim_end_ws(cs: Seq<char>) -> Seq<char>
    decreases cs.len(),
{
    if cs.len() > 0 && is_unicode_ws(cs.last()) {
        trim_end_ws(cs.drop_last())
    } else {
        cs
    }
}

/// `cs` without leading and trailing Unicode whitespace.
pub open spec fn trim_ws(cs: Seq<char>) -> Seq<char> {
    trim_end_ws(trim_start_ws(cs))
}

pub open spec fn is_digit_char(c: char) -> bool {
    '0' <= c <= '9'
}

/// A non-empty run of ASCII decimal digits.
pub open spec fn all_digits(cs: Seq<char>) -> bool {
    cs.len() > 0 && forall|i: int| 0 <= i < cs.len() ==> #[trigger] is_digit_char(cs[i])
}

/// The value of a run of decimal digits.
pub open spec fn digits_value(cs: Seq<char>) -> int
    decreases cs.len(),
{
    if cs.len() == 0 {
        0
    } else {
        digits_value(cs.drop_last()) * 10 + ((cs.last() as u32) - 48)
    }
}

/// What `str::parse::<i64>` accepts: an optional `+` or `-` sign followed by
/// one or more decimal digits, whose value fits in `i64`.
pub open spec fn parse_i64_chars(cs: Seq<char>) -> Option<i64> {
    if cs.len() > 0 && cs[0] == '-' {
        let d = cs.drop_first();
        if all_digits(d) && -digits_value(d) >= i64::MIN {
            Some((-digits_value(d)) as i64)
        } else {
            None
        }
    } else {
        let d = if cs.len() > 0 && cs[0] == '+' { cs.drop_first() } else { cs };
        if all_digits(d) && digits_value(d) <= i64::MAX {
            Some(digits_value(d) as i64)
        } else {
            None
        }
    }
}

/// What `str::parse::<usize>` accepts: an optional `+` sign followed by one or
/// more decimal digits, whose value fits in `usize`.
pub open spec fn parse_usize_chars(cs: Seq<char>) -> Option<usize> {
    let d = if cs.len() > 0 && cs[0] == '+' { cs.drop_first() } else { cs };
    if all_digits(d) && digits_value(d) <= usize::MAX {
        Some(digits_value(d) as usize)
    } else {
        None
    }
}

/// The integer a byte string denotes as text: valid UTF-8 which, with Unicode
/// whitespace trimmed from both ends, parses as an `i64`.
pub open spec fn int_text_value(b: Seq<u8>) -> Option<i64> {
    if valid_utf8(b) {
        parse_i64_chars(trim_ws(decode_utf8(b)))
    } else {
        None
    }
}

/// The integer a byte string denotes with no trimming (`from_utf8` then `parse`).
pub open spec fn int_text_value_untrimmed(b: Seq<u8>) -> Option<i64> {
    if valid_utf8(b) {
        parse_i64_chars(decode_utf8(b))
    } else {
        None
    }
}

/// The `usize` a byte string denotes with no trimming (`from_utf8` then `parse`).
pub open spec fn usize_text_value(b: Seq<u8>) -> Option<usize> {
    if valid_utf8(b) {
        parse_usize_chars(decode_utf8(b))
    } else {
        None
    }
}

/// Checks `b` for UTF-8 and views it as text: `std::str::from_utf8`.
/// Trusted: the result is `Some` exactly when `b` is valid UTF-8, and then
/// holds the characters `b` encodes.
#[verifier::external_body]
pub(crate) fn str_from_utf8(b: &[u8]) -> (r: Option<&str>)
    ensures
        r is Some <==> valid_utf8(b@),
        r is Some ==> r.unwrap()@ == decode_utf8(b@),
{
    std::str::from_utf8(b).ok()
}

/// Takes ownership of bytes as a `String`: `String::from_utf8`. Trusted: the
/// result is `Some` exactly when the bytes are valid UTF-8, and then holds the
/// characters they encode.
#[verifier::external_body]
pub(crate) fn string_from_utf8(v: Vec<u8>) -> (r: Option<String>)
    ensures
        r is Some <==> valid_utf8(v@),
        r is Some ==> r.unwrap()@ == decode_utf8(v@),
{
    String::from_utf8(v).ok()
}

/// `str::parse::<i64>`: an optional sign and one or more ASCII digits whose
/// value fits in `i64`.
pub(crate) fn str_parse_i64(s: &str) -> (r: Option<i64>)
    ensures
        r == parse_i64_chars(s@),
{
    let cs = chars_of(s);
    if cs.len() > 0 && cs[0] == '-' {
        assert(cs@.skip(1) =~= cs@.drop_first());
        match digit_run_value(&cs, 1, 0x8000_0000_0000_0000) {
            Some(v) => {
                if v == 0x8000_0000_0000_0000 {
                    Some(i64::MIN)
                } else {
                    Some(-(v as i64))
                }
            },
            None => None,
        }
    } else {
        let start: usize = if cs.len() > 0 && cs[0] == '+' { 1 } else { 0 };
        assert(cs@.skip(1) =~= cs@.drop_first());
        assert(cs@.skip(0) =~= cs@);
        match digit_run_value(&cs, start, 0x7fff_ffff_ffff_ffff) {
            Some(v) => Some(v as i64),
            None => None,
        }
    }
}

/// `str::parse::<usize>`: an optional `+` and one or more ASCII digits whose
/// value fits in `usize`.
pub(crate) fn str_parse_usize(s: &str) -> (r: Option<usize>)
    ensures
        r == parse_usize_chars(s@),
{
    let cs = chars_of(s);
    let start: usize = if cs.len() > 0 && cs[0] == '+' { 1 } else { 0 };
    assert(cs@.skip(1) =~= cs@.drop_first());
    assert(cs@.skip(0) =~= cs@);
    match digit_run_value(&cs, start, usize::MAX as u64) {
        Some(v) => Some(v as usize),
        None => None,
    }
}

/// The text `String::from_utf8_lossy` makes of bytes (invalid sequences
/// replaced by U+FFFD).
pub uninterp spec fn lossy_utf8(b: Seq<u8>) -> Seq<char>;

/// `String::from_utf8_lossy(b).into_owned()`. Trusted: the result is a
/// function of the bytes alone (named `lossy_utf8`), and valid UTF-8 comes
/// back as exactly the characters it encodes. How invalid sequences are
/// replaced is left unsaid.
#[verifier::external_body]
pub(crate) fn lossy_string(b: &[u8]) -> (r: String)
    ensures
        r@ == lossy_utf8(b@),
        valid_utf8(b@) ==> r@ == decode_utf8(b@),
{
    String::from_utf8_lossy(b).into_owned()
}

/// Parse a byte string as a (whitespace-trimmed) decimal integer.
pub fn parse_int_text(b: &[u8]) -> (r: Option<i64>)
    ensures
        r == int_text_value(b@),
{
    match str_from_utf8(b) {
        Some(s) => {
            let t = trim_str(s);
            str_parse_i64(t.as_str())
        },
        None => None,
    }
}

/// Parse a byte string as a decimal integer, without trimming.
pub fn parse_int_text_untrimmed(b: &[u8]) -> (r: Option<i64>)
    ensures
        r == int_text_value_untrimmed(b@),
{
    match str_from_utf8(b) {
        Some(s) => str_parse_i64(s),
        None => None,
    }
}

/// Parse a byte string as a decimal `usize`, without trimming.
pub fn parse_usize_text(b: &[u8]) -> (r: Option<usize>)
    ensures
        r == usize_text_value(b@),
{
    match str_from_utf8(b) {
        Some(s) => str_parse_usize(s),
        None => None,
    }
}

/// Decimal digits of a natural number (ASCII).
pub open spec fn nat_digits(n: nat) -> Seq<u8>
    decreases n,
{
    if n < 10 {
        seq![(48 + n) as u8]
    } else {
        nat_digits(n / 10) + seq![(48 + n % 10) as u8]
    }
}

/// Decimal text of an integer, with a leading `-` when negative (as `Display` does).
pub open spec fn decimal(n: int) -> Seq<u8> {
    if n < 0 {
        seq![45u8] + nat_digits((-n) as nat)
    } else {
        nat_digits(n as nat)
    }
}

/// Append the decimal digits of `n`.
pub fn push_nat_digits(out: &mut Vec<u8>, n: u64)
    ensures
        final(out)@ == old(out)@ + nat_digits(n as nat),
    decreases n,
{
    if n >= 10 {
        push_nat_digits(out, n / 10);
    }
    out.push((48 + n % 10) as u8);
    assert(n < 10 ==> nat_digits(n as nat) =~= seq![(48 + n) as u8]);
}

/// Append the decimal text of `n`.
pub fn push_decimal(out: &mut Vec<u8>, n: i64)
    ensures
        final(out)@ == old(out)@ + decimal(n as int),
{
    if n < 0 {
        out.push(45u8);
        let m: u64 = (0i128 - n as i128) as u64;
        push_nat_digits(out, m);
        assert(final(out)@ =~= old(out)@ + decimal(n as int));
    } else {
        push_nat_digits(out, n as u64);
    }
}

/// The decimal text of `n` (`n.to_string()` as bytes).
pub fn decimal_bytes(n: i64) -> (r: Vec<u8>)
    ensures
        r@ == decimal(n as int),
{
    let mut v = Vec::new();
    push_decimal(&mut v, n);
    assert(v@ =~= decimal(n as int));
    v
}

/// The decimal text of `n` as a `usize` count.
pub fn decimal_usize_bytes(n: usize) -> (r: Vec<u8>)
    ensures
        r@ == decimal(n as int),
{
    let mut v = Vec::new();
    push_nat_digits(&mut v, n as u64);
    assert(v@ =~= decimal(n as int));
    v
}

/// Bytes as the characters they are when each is ASCII.
pub open spec fn ascii_chars(b: Seq<u8>) -> Seq<char> {
    Seq::new(b.len(), |i: int| b[i] as char)
}

pub proof fn lemma_nat_digits_shape(n: nat)
    ensures
        nat_digits(n).len() > 0,
        forall|i: int| 0 <= i < nat_digits(n).len() ==> 48 <= #[trigger] nat_digits(n)[i] <= 57,
        digits_value(ascii_chars(nat_digits(n))) == n,
        all_digits(ascii_chars(nat_digits(n))),
    decreases n,
{
    let d = nat_digits(n);
    if n < 10 {
        assert(ascii_chars(d).drop_last() =~= Seq::<char>::empty());
        assert((ascii_chars(d).last() as u32) == 48 + n);
        assert(digits_value(ascii_chars(d)) == digits_value(ascii_chars(d).drop_last()) * 10 + (
        (ascii_chars(d).last() as u32) - 48));
    } else {
        lemma_nat_digits_shape(n / 10);
        let p = nat_digits(n / 10);
        assert(d == p + seq![(48 + n % 10) as u8]);
        assert(ascii_chars(d).drop_last() =~= ascii_chars(p));
        assert((ascii_chars(d).last() as u32) == 48 + n % 10);
        assert(digits_value(ascii_chars(d)) == digits_value(ascii_chars(d).drop_last()) * 10 + (
        (ascii_chars(d).last() as u32) - 48));
        assert((n / 10) * 10 + n % 10 == n) by (nonlinear_arith);
        assert(forall|i: int| 0 <= i < d.len() ==> 48 <= #[trigger] d[i] <= 57) by {
            assert forall|i: int| 0 <= i < d.len() implies 48 <= #[trigger] d[i] <= 57 by {
                if i < p.len() {
                    assert(d[i] == p[i]);
                }
            }
        }
    }
    assert forall|i: int| 0 <= i < ascii_chars(d).len() implies #[trigger] is_digit_char(ascii_chars(d)[i]) by {
        assert(48 <= d[i] <= 57);
    }
}

/// ASCII bytes decode to the characters they are.
pub proof fn lemma_ascii_decode(b: Seq<u8>)
    requires
        forall|i: int| 0 <= i < b.len() ==> #[trigger] b[i] < 128,
    ensures
        valid_utf8(b),
        decode_utf8(b) == ascii_chars(b),
{
    let cs = ascii_chars(b);
    assert(is_ascii_chars(cs)) by {
        assert forall|i: int| 0 <= i < cs.len() implies '\0' <= #[trigger] cs[i] <= '\u{7f}' by {
            assert(b[i] < 128);
        }
    }
    is_ascii_chars_encode_utf8(cs);
    assert(encode_utf8(cs) =~= b) by {
        assert forall|i: int| 0 <= i < b.len() implies encode_utf8(cs)[i] == b[i] by {
            assert(cs[i] as u8 == encode_utf8(cs)[i]);
        }
    }
    encode_utf8_valid_utf8(cs);
    encode_utf8_decode_utf8(cs);
}

/// Decimal text reads back as the integer it renders.
pub proof fn lemma_decimal_parses(n: i64)
    ensures
        int_text_value(decimal(n as int)) == Some(n),
        int_text_value_untrimmed(decimal(n as int)) == Some(n),
{
    let b = decimal(n as int);
    let m: nat = if n < 0 { (-n) as nat } else { n as nat };
    lemma_nat_digits_shape(m);
    let d = nat_digits(m);
    assert forall|i: int| 0 <= i < b.len() implies #[trigger] b[i] < 128 by {
        if n < 0 {
            if i > 0 {
                assert(b[i] == d[i - 1]);
            }
        } else {
            assert(b[i] == d[i]);
        }
    }
    lemma_ascii_decode(b);
    let cs = ascii_chars(b);
    assert(cs.len() > 0);
    assert(!is_unicode_ws(cs[0])) by {
        if n < 0 {
        } else {
            assert(48 <= d[0] <= 57);
        }
    }
    assert(!is_unicode_ws(cs.last())) by {
        assert(b.last() == d.last());
        assert(48 <= d[d.len() - 1] <= 57);
    }
    assert(trim_start_ws(cs) == cs);
    assert(trim_end_ws(cs) == cs);
    assert(trim_ws(cs) == cs);
    if n < 0 {
        assert(cs.drop_first() =~= ascii_chars(d));
        assert(cs[0] == '-');
    } else {
        assert(cs =~= ascii_chars(d));
        assert(cs[0] != '-' && cs[0] != '+') by {
            assert(48 <= d[0] <= 57);
        }
    }
}

/// `u8::is_ascii_whitespace`: space, tab, line feed, form feed, carriage return.
pub open spec fn is_ascii_ws(c: u8) -> bool {
    c == 32 || c == 9 || c == 10 || c == 12 || c == 13
}

pub fn ascii_ws(c: u8) -> (r: bool)
    ensures
        r == is_ascii_ws(c),
{
    c == 32 || c == 9 || c == 10 || c == 12 || c == 13
}

/// ASCII upper-casing of one byte (`u8::to_ascii_uppercase`).
pub open spec fn upper_byte(c: u8) -> u8 {
    if 97 <= c <= 122 { (c - 32) as u8 } else { c }
}

/// ASCII lower-casing of one byte (`u8::to_ascii_lowercase`).
pub open spec fn lower_byte(c: u8) -> u8 {
    if 65 <= c <= 90 { (c + 32) as u8 } else { c }
}

pub open spec fn upper_bytes(b: Seq<u8>) -> Seq<u8> {
    Seq::new(b.len(), |i: int| upper_byte(b[i]))
}

pub open spec fn lower_bytes(b: Seq<u8>) -> Seq<u8> {
    Seq::new(b.len(), |i: int| lower_byte(b[i]))
}

/// `<[u8]>::to_ascii_uppercase`.
pub fn to_upper(b: &[u8]) -> (r: Vec<u8>)
    ensures
        r@ == upper_bytes(b@),
{
    let mut out: Vec<u8> = Vec::new();
    let mut i: usize = 0;
    while i < b.len()
        invariant
            i <= b@.len(),
            out@ =~= upper_bytes(b@.subrange(0, i as int)),
        decreases b@.len() - i,
    {
        let c = b[i];
        let u = if 97 <= c && c <= 122 { c - 32 } else { c };
        out.push(u);
        i = i + 1;
        assert(out@ =~= upper_bytes(b@.subrange(0, i as int)));
    }
    assert(b@.subrange(0, i as int) =~= b@);
    out
}

/// `<[u8]>::to_ascii_lowercase`.
pub fn to_lower(b: &[u8]) -> (r: Vec<u8>)
    ensures
        r@ == lower_bytes(b@),
{
    let mut out: Vec<u8> = Vec::new();
    let mut i: usize = 0;
    while i < b.len()
        invariant
            i <= b@.len(),
            out@ =~= lower_bytes(b@.subrange(0, i as int)),
        decreases b@.len() - i,
    {
        let c = b[i];
        let u = if 65 <= c && c <= 90 { c + 32 } else { c };
        out.push(u);
        i = i + 1;
        assert(out@ =~= lower_bytes(b@.subrange(0, i as int)));
    }
    assert(b@.subrange(0, i as int) =~= b@);
    out
}

/// Byte-string equality.
pub fn bytes_eq(a: &[u8], b: &[u8]) -> (r: bool)
    ensures
        r == (a@ == b@),
{
    if a.len() != b.len() {
        return false;
    }
    let mut i: usize = 0;
    while i < a.len()
        invariant
            i <= a@.len(),
            a@.len() == b@.len(),
            a@.subrange(0, i as int) =~= b@.subrange(0, i as int),
        decreases a@.len() - i,
    {
        if a[i] != b[i] {
            return false;
        }
        i = i + 1;
        assert(a@.subrange(0, i as int) =~= b@.subrange(0, i as int));
    }
    assert(a@ =~= a@.subrange(0, i as int));
    assert(b@ =~= b@.subrange(0, i as int));
    true
}

} // verus!

verus! {


/// The characters of a string, in order.
pub fn chars_of(s: &str) -> (r: Vec<char>)
    ensures
        r@ == s@,
{
    let mut v: Vec<char> = Vec::new();
    for c in it: s.chars()
        invariant
            v@ == it.seq().take(it.index()),
    {
        v.push(c);
    }
    assert(v@ =~= s@);
    v
}

/// A value of digits is never negative, and never below the value of a
/// leading part of them.
proof fn lemma_digits_prefix(cs: Seq<char>, i: int)
    requires
        0 <= i <= cs.len(),
        forall|j: int| 0 <= j < cs.len() ==> #[trigger] is_digit_char(cs[j]),
    ensures
        0 <= digits_value(cs.take(i)) <= digits_value(cs),
    decreases cs.len(),
{
    if i < cs.len() {
        let d = cs.drop_last();
        assert(d.take(i) =~= cs.take(i));
        lemma_digits_prefix(d, i);
        lemma_digits_prefix(d, d.len() as int);
        assert(d.take(d.len() as int) =~= d);
        assert(is_digit_char(cs[cs.len() - 1]));
    } else {
        assert(cs.take(i) =~= cs);
        if cs.len() > 0 {
            let d = cs.drop_last();
            lemma_digits_prefix(d, d.len() as int);
            assert(d.take(d.len() as int) =~= d);
            assert(is_digit_char(cs[cs.len() - 1]));
        }
    }
}

/// The value of the digits from `start` to the end, when they are one or
/// more ASCII digits whose value is at most `limit`.
fn digit_run_value(cs: &Vec<char>, start: usize, limit: u64) -> (r: Option<u64>)
    requires
        start <= cs@.len(),
    ensures
        match r {
            Some(v) => all_digits(cs@.skip(start as int)) && v == digits_value(cs@.skip(start as int)) && v <= limit,
            None => !(all_digits(cs@.skip(start as int)) && digits_value(cs@.skip(start as int)) <= limit),
        },
{
    let ghost t = cs@.skip(start as int);
    if start == cs.len() {
        return None;
    }
    let mut acc: u64 = 0;
    let mut i: usize = start;
    assert(t.take(0) =~= Seq::<char>::empty());
    while i < cs.len()
        invariant
            start <= i <= cs@.len(),
            t == cs@.skip(start as int),
            forall|j: int| 0 <= j < i - start ==> #[trigger] is_digit_char(t[j]),
            acc == digits_value(t.take(i - start)),
            acc <= limit,
        decreases cs@.len() - i,
    {
        let c = cs[i];
        assert(t[i - start] == c);
        if !(c >= '0' && c <= '9') {
            assert(!is_digit_char(t[i - start]));
            return None;
        }
        let d: u64 = (c as u32 - 48) as u64;
        assert(t.take(i - start + 1).drop_last() =~= t.take(i - start));
        assert(digits_value(t.take(i - start + 1)) == acc * 10 + d);
        if d > limit || acc > (limit - d) / 10 {
            proof {
                if d <= limit {
                    assert(acc * 10 + d > limit) by (nonlinear_arith)
                        requires
                            acc > (limit - d) / 10,
                            d <= limit,
                    ;
                }
                assert(acc * 10 + d > limit);
                if all_digits(t) {
                    lemma_digits_prefix(t, i - start + 1);
                }
            }
            return None;
        }
        assert(acc * 10 + d <= limit) by (nonlinear_arith)
            requires
                acc <= (limit - d) / 10,
                d <= limit,
        ;
        acc = acc * 10 + d;
        i = i + 1;
    }
    assert(t.take(i - start) =~= t);
    Some(acc)
}

/// `char::is_whitespace`.
pub fn is_ws_char(c: char) -> (r: bool)
    ensures
        r == is_unicode_ws(c),
{
    let u = c as u32;
    (0x9 <= u && u <= 0xD) || u == 0x20 || u == 0x85 || u == 0xA0 || u == 0x1680 || (0x2000 <= u && u <= 0x200A)
        || u == 0x2028 || u == 0x2029 || u == 0x202F || u == 0x205F || u == 0x3000
}

pub open spec fn strs_view(v: Seq<String>) -> Seq<Seq<char>> {
    v.map_values(|t: String| t@)
}

/// Scanning text left to right: the words completed so far and the one being
/// read. Whitespace ends a word; runs of whitespace make no empty words.
pub open spec fn ws_scan(cs: Seq<char>) -> (Seq<Seq<char>>, Seq<char>)
    decreases cs.len(),
{
    if cs.len() == 0 {
        (Seq::empty(), Seq::empty())
    } else {
        let p = ws_scan(cs.drop_last());
        if is_unicode_ws(cs.last()) {
            if p.1.len() > 0 { (p.0.push(p.1), Seq::empty()) } else { (p.0, Seq::empty()) }
        } else {
            (p.0, p.1.push(cs.last()))
        }
    }
}

/// The whitespace-separated words of a text (`str::split_whitespace`).
pub open spec fn ws_tokens(cs: Seq<char>) -> Seq<Seq<char>> {
    let p = ws_scan(cs);
    if p.1.len() > 0 { p.0.push(p.1) } else { p.0 }
}

/// Split text into its whitespace-separated words.
pub fn split_ws(s: &str) -> (r: Vec<String>)
    ensures
        strs_view(r@) == ws_tokens(s@),
{
    let cs = chars_of(s);
    let mut toks: Vec<String> = Vec::new();
    let mut st: usize = 0;
    let mut inn = false;
    let mut i: usize = 0;
    assert(strs_view(toks@) =~= Seq::<Seq<char>>::empty());
    assert(cs@.take(0) =~= Seq::<char>::empty());
    while i < cs.len()
        invariant
            i <= cs@.len(),
            cs@ == s@,
            st <= i,
            inn ==> st < i,
            ws_scan(cs@.take(i as int)) == (strs_view(toks@), if inn { cs@.subrange(st as int, i as int) } else { Seq::<char>::empty() }),
        decreases cs@.len() - i,
    {
        assert(cs@.take(i + 1).drop_last() =~= cs@.take(i as int));
        assert(cs@.take(i + 1).last() == cs@[i as int]);
        if is_ws_char(cs[i]) {
            if inn {
                let t = s.substring_char(st, i).to_owned();
                toks.push(t);
                inn = false;
                assert(strs_view(toks@) =~= ws_scan(cs@.take(i as int)).0.push(cs@.subrange(st as int, i as int)));
            }
        } else {
            if !inn {
                inn = true;
                st = i;
                assert(cs@.subrange(st as int, i + 1) =~= Seq::<char>::empty().push(cs@[i as int]));
            } else {
                assert(cs@.subrange(st as int, i + 1) =~= cs@.subrange(st as int, i as int).push(cs@[i as int]));
            }
        }
        i = i + 1;
    }
    assert(cs@.take(i as int) =~= cs@);
    if inn {
        let t = s.substring_char(st, i).to_owned();
        toks.push(t);
        assert(strs_view(toks@) =~= ws_scan(cs@).0.push(cs@.subrange(st as int, i as int)));
    }
    toks
}

/// Text without its trailing whitespace (`str::trim_end`).
pub fn trim_end_str(s: &str) -> (r: String)
    ensures
        r@ == trim_end_ws(s@),
{
    let cs = chars_of(s);
    let mut k: usize = cs.len();
    assert(cs@.take(k as int) =~= cs@);
    while k > 0 && is_ws_char(cs[k - 1])
        invariant
            k <= cs@.len(),
            cs@ == s@,
            trim_end_ws(cs@.take(k as int)) == trim_end_ws(s@),
        decreases k,
    {
        assert(cs@.take(k as int).drop_last() =~= cs@.take(k - 1));
        k = k - 1;
    }
    assert(trim_end_ws(cs@.take(k as int)) == cs@.take(k as int));
    s.substring_char(0, k).to_owned()
}

/// The first position of `c` in `cs`, if it occurs.
#[verifier::opaque]
pub open spec fn find_char(cs: Seq<char>, c: char) -> Option<int> {
    if exists|i: int| 0 <= i < cs.len() && cs[i] == c {
        Some(choose|i: int| 0 <= i < cs.len() && cs[i] == c && forall|j: int| 0 <= j < i ==> cs[j] != c)
    } else {
        None
    }
}

/// `c` first occurs in `cs` at `i`.
pub proof fn lemma_find_char_at(cs: Seq<char>, c: char, i: int)
    requires
        0 <= i < cs.len(),
        cs[i] == c,
        forall|j: int| 0 <= j < i ==> cs[j] != c,
    ensures
        find_char(cs, c) == Some(i),
{
    reveal(find_char);
    let k = choose|k: int| 0 <= k < cs.len() && cs[k] == c && forall|j: int| 0 <= j < k ==> cs[j] != c;
    assert(k == i) by {
        if k < i {
            assert(cs[k] != c);
        } else if k > i {
            assert(cs[i] != c);
        }
    }
}

/// `c` does not occur in `cs`.
pub proof fn lemma_find_char_none(cs: Seq<char>, c: char)
    requires
        forall|j: int| 0 <= j < cs.len() ==> cs[j] != c,
    ensures
        find_char(cs, c) is None,
{
    reveal(find_char);
}

/// Decimal text is a `-` or digits, and parses back as its integer.
pub proof fn lemma_dec_chars(n: i64)
    ensures
        forall|i: int| 0 <= i < dec_chars(n as int).len() ==> #[trigger] dec_chars(n as int)[i] == '-'
            || is_digit_char(dec_chars(n as int)[i]),
        parse_i64_chars(dec_chars(n as int)) == Some(n),
{
    lemma_decimal_parses(n);
    let b = decimal(n as int);
    let m: nat = if n < 0 { (-n) as nat } else { n as nat };
    lemma_nat_digits_shape(m);
    let d = nat_digits(m);
    assert forall|i: int| 0 <= i < b.len() implies #[trigger] b[i] < 128 && (b[i] == 45 || 48 <= b[i] <= 57) by {
        if n < 0 {
            if i > 0 {
                assert(b[i] == d[i - 1]);
            }
        } else {
            assert(b[i] == d[i]);
        }
    }
    lemma_ascii_decode(b);
    let cs = dec_chars(n as int);
    assert forall|i: int| 0 <= i < cs.len() implies #[trigger] cs[i] == '-' || is_digit_char(cs[i]) by {
        assert(cs[i] == b[i] as char);
    }
}

/// Find the first `c` in `cs` at or after `from`.
pub fn find_from(cs: &Vec<char>, c: char, from: usize) -> (r: Option<usize>)
    requires
        from <= cs@.len(),
    ensures
        match find_char(cs@.skip(from as int), c) {
            Some(i) => r matches Some(j) && j == from + i,
            None => r is None,
        },
        r matches Some(i) ==> from <= i < cs@.len() && cs@[i as int] == c,
{
    let ghost t = cs@.skip(from as int);
    let mut i: usize = from;
    while i < cs.len()
        invariant
            from <= i <= cs@.len(),
            t == cs@.skip(from as int),
            forall|j: int| 0 <= j < i - from ==> t[j] != c,
        decreases cs@.len() - i,
    {
        if cs[i] == c {
            proof {
                reveal(find_char);
                let w = i - from;
                assert(t[w] == cs@[i as int]);
                assert(0 <= w < t.len() && t[w] == c && forall|j: int| 0 <= j < w ==> t[j] != c);
                let k = choose|k: int| 0 <= k < t.len() && t[k] == c && forall|j: int| 0 <= j < k ==> t[j] != c;
                assert(k == w) by {
                    if k < w {
                        assert(t[k] != c);
                    } else if k > w {
                        assert(t[w] != c);
                    }
                }
            }
            return Some(i);
        }
        assert(t[i - from] == cs@[i as int]);
        i = i + 1;
    }
    proof {
        reveal(find_char);
        assert forall|k: int| 0 <= k < t.len() implies t[k] != c by {}
    }
    None
}

/// Text without its trailing `\r` and `\n` characters.
pub open spec fn trim_crlf_end(cs: Seq<char>) -> Seq<char>
    decreases cs.len(),
{
    if cs.len() > 0 && (cs.last() == '\r' || cs.last() == '\n') {
        trim_crlf_end(cs.drop_last())
    } else {
        cs
    }
}

/// Drop the trailing `\r` and `\n` characters of a text.
pub fn trim_crlf_end_str(s: &str) -> (r: String)
    ensures
        r@ == trim_crlf_end(s@),
{
    let cs = chars_of(s);
    let mut k: usize = cs.len();
    assert(cs@.take(k as int) =~= cs@);
    while k > 0 && (cs[k - 1] == '\r' || cs[k - 1] == '\n')
        invariant
            k <= cs@.len(),
            cs@ == s@,
            trim_crlf_end(cs@.take(k as int)) == trim_crlf_end(s@),
        decreases k,
    {
        assert(cs@.take(k as int).drop_last() =~= cs@.take(k - 1));
        k = k - 1;
    }
    assert(trim_crlf_end(cs@.take(k as int)) == cs@.take(k as int));
    s.substring_char(0, k).to_owned()
}

/// The characters of an integer's decimal text.
pub open spec fn dec_chars(n: int) -> Seq<char> {
    decode_utf8(decimal(n))
}

/// The decimal text of an integer, as a `String`.
pub fn decimal_string(n: i64) -> (r: String)
    ensures
        r@ == dec_chars(n as int),
        encode_utf8(r@) == decimal(n as int),
{
    let b = decimal_bytes(n);
    proof {
        let m: nat = if n < 0 { (-n) as nat } else { n as nat };
        lemma_nat_digits_shape(m);
        let d = nat_digits(m);
        assert forall|i: int| 0 <= i < b@.len() implies #[trigger] b@[i] < 128 by {
            if n < 0 {
                if i > 0 {
                    assert(b@[i] == d[i - 1]);
                }
            } else {
                assert(b@[i] == d[i]);
            }
        }
        lemma_ascii_decode(b@);
    }
    match string_from_utf8(b) {
        Some(s) => s,
        None => {
            proof {
                assert(false);
            }
            String::new()
        },
    }
}

/// The decimal text of an unsigned integer, as a `String`.
pub fn nat_string(n: u64) -> (r: String)
    ensures
        r@ == dec_chars(n as int),
        encode_utf8(r@) == decimal(n as int),
{
    let mut b: Vec<u8> = Vec::new();
    push_nat_digits(&mut b, n);
    proof {
        lemma_nat_digits_shape(n as nat);
        assert(b@ =~= nat_digits(n as nat));
        assert forall|i: int| 0 <= i < b@.len() implies #[trigger] b@[i] < 128 by {
            assert(48 <= nat_digits(n as nat)[i] <= 57);
        }
        lemma_ascii_decode(b@);
    }
    match string_from_utf8(b) {
        Some(s) => s,
        None => {
            proof {
                assert(false);
            }
            String::new()
        },
    }
}

/// Text without its leading and trailing whitespace (`str::trim`).
pub fn trim_str(s: &str) -> (r: String)
    ensures
        r@ == trim_ws(s@),
{
    let cs = chars_of(s);
    let n = cs.len();
    let mut a: usize = 0;
    assert(cs@.skip(0) =~= cs@);
    while a < n && is_ws_char(cs[a])
        invariant
            a <= n,
            n == cs@.len(),
            cs@ == s@,
            trim_start_ws(cs@.skip(a as int)) == trim_start_ws(s@),
        decreases n - a,
    {
        assert(cs@.skip(a as int).drop_first() =~= cs@.skip(a + 1));
        a = a + 1;
    }
    assert(trim_start_ws(cs@.skip(a as int)) == cs@.skip(a as int));
    let mut b: usize = n;
    assert(cs@.subrange(a as int, b as int) =~= cs@.skip(a as int));
    while b > a && is_ws_char(cs[b - 1])
        invariant
            a <= b <= n,
            n == cs@.len(),
            cs@ == s@,
            trim_end_ws(cs@.subrange(a as int, b as int)) == trim_ws(s@),
        decreases b,
    {
        assert(cs@.subrange(a as int, b as int).drop_last() =~= cs@.subrange(a as int, b - 1));
        b = b - 1;
    }
    assert(trim_end_ws(cs@.subrange(a as int, b as int)) == cs@.subrange(a as int, b as int));
    s.substring_char(a, b).to_owned()
}

} // verus!
