//! Text as sequences of characters: conversion to and from `String`, hex and
//! decimal digits, and the handful of `str` operations the rest relies on.
use vstd::prelude::*;
use vstd::std_specs::iter::IteratorSpec;

verus! {

/// The characters of a string slice, in order.
pub fn chars_of(s: &str) -> (res: Vec<char>)
    ensures
        res@ == s@,
{
    let mut out: Vec<char> = Vec::new();
    let mut it = s.chars();
    loop
        invariant
            out@ + it.remaining() == s@,
            it.decrease() is Some,
        ensures
            out@ == s@,
        decreases it.decrease()->0,
    {
        let ghost before = it.remaining();
        match it.next() {
            Some(c) => {
                out.push(c);
                assert(before == seq![c] + it.remaining());
                assert(out@ + it.remaining() =~= s@);
            }
            None => {
                assert(out@ =~= s@);
                break;
            }
        }
    }
    out
}

/// `String::push`: the text with one more character on the end.
#[verifier::external_body]
fn push_char(text: &mut String, c: char)
    ensures
        final(text)@ == old(text)@.push(c),
{
    text.push(c);
}

/// A `String` holding exactly the given characters.
pub fn string_of(chars: &[char]) -> (res: String)
    ensures
        res@ == chars@,
{
    let mut out = String::new();
    let mut k: usize = 0;
    while k < chars.len()
        invariant
            k <= chars@.len(),
            out@ == chars@.take(k as int),
        decreases chars@.len() - k,
    {
        push_char(&mut out, chars[k]);
        assert(chars@.take(k + 1) =~= chars@.take(k as int).push(chars@[k as int]));
        k = k + 1;
    }
    assert(chars@.take(k as int) =~= chars@);
    out
}

/// Upper-case hex digit for a value below 16.
pub open spec fn hex_digit(n: u8) -> char {
    if n == 0 { '0' }
    else if n == 1 { '1' }
    else if n == 2 { '2' }
    else if n == 3 { '3' }
    else if n == 4 { '4' }
    else if n == 5 { '5' }
    else if n == 6 { '6' }
    else if n == 7 { '7' }
    else if n == 8 { '8' }
    else if n == 9 { '9' }
    else if n == 10 { 'A' }
    else if n == 11 { 'B' }
    else if n == 12 { 'C' }
    else if n == 13 { 'D' }
    else if n == 14 { 'E' }
    else { 'F' }
}

/// Two upper-case hex digits per byte, high nibble first.
pub open spec fn hex_text(bytes: Seq<u8>) -> Seq<char>
    decreases bytes.len(),
{
    if bytes.len() == 0 {
        Seq::empty()
    } else {
        let b = bytes.last();
        hex_text(bytes.drop_last()) + seq![hex_digit(b / 16), hex_digit(b % 16)]
    }
}

fn hex_digit_exec(n: u8) -> (c: char)
    ensures
        c == hex_digit(n),
{
    if n == 0 { '0' }
    else if n == 1 { '1' }
    else if n == 2 { '2' }
    else if n == 3 { '3' }
    else if n == 4 { '4' }
    else if n == 5 { '5' }
    else if n == 6 { '6' }
    else if n == 7 { '7' }
    else if n == 8 { '8' }
    else if n == 9 { '9' }
    else if n == 10 { 'A' }
    else if n == 11 { 'B' }
    else if n == 12 { 'C' }
    else if n == 13 { 'D' }
    else if n == 14 { 'E' }
    else { 'F' }
}

/// The characters of `hex_text`, built up byte by byte.
pub fn hex_chars(bytes: &[u8]) -> (res: Vec<char>)
    ensures
        res@ == hex_text(bytes@),
{
    let mut out: Vec<char> = Vec::new();
    let mut i: usize = 0;
    while i < bytes.len()
        invariant
            i <= bytes@.len(),
            out@ == hex_text(bytes@.take(i as int)),
        decreases bytes@.len() - i,
    {
        let b = bytes[i];
        out.push(hex_digit_exec(b / 16));
        out.push(hex_digit_exec(b % 16));
        assert(bytes@.take(i + 1).drop_last() =~= bytes@.take(i as int));
        i = i + 1;
    }
    assert(bytes@.take(i as int) =~= bytes@);
    out
}

/// Whether a character is an ASCII decimal digit.
pub open spec fn is_digit(c: char) -> bool {
    '0' <= c && c <= '9'
}

/// Whether every character is an ASCII decimal digit.
pub open spec fn all_digits(s: Seq<char>) -> bool {
    forall|i: int| 0 <= i < s.len() ==> is_digit(#[trigger] s[i])
}

/// The value of a string of decimal digits (0 for the empty string).
pub open spec fn digits_value(s: Seq<char>) -> nat
    decreases s.len(),
{
    if s.len() == 0 {
        0
    } else {
        digits_value(s.drop_last()) * 10 + (s.last() as nat - '0' as nat) as nat
    }
}

/// The decimal digits of a number, without leading zeros ("0" for zero).
pub open spec fn decimal_text(n: nat) -> Seq<char>
    decreases n,
{
    if n < 10 {
        seq![hex_digit(n as u8)]
    } else {
        decimal_text(n / 10) + seq![hex_digit((n % 10) as u8)]
    }
}

/// The text after an optional leading `+`.
pub open spec fn unsigned_digits(s: Seq<char>) -> Seq<char> {
    if s.len() > 0 && s[0] == '+' { s.drop_first() } else { s }
}

/// What `u32::from_str` accepts: an optional `+`, then one or more decimal
/// digits whose value fits in 32 bits.
pub open spec fn parsed_u32(s: Seq<char>) -> Option<u32> {
    let digits = unsigned_digits(s);
    if digits.len() == 0 || !all_digits(digits) || digits_value(digits) > u32::MAX {
        None
    } else {
        Some(digits_value(digits) as u32)
    }
}

/// A digit below ten is written as that decimal digit.
pub proof fn lemma_hex_digit_decimal(d: u8)
    requires
        d < 10,
    ensures
        is_digit(hex_digit(d)),
        hex_digit(d) as nat - '0' as nat == d as nat,
{
}

/// The decimal text of a number is digits, worth the number, with no leading zero.
pub proof fn lemma_decimal_text(n: nat)
    ensures
        all_digits(decimal_text(n)),
        digits_value(decimal_text(n)) == n,
        decimal_text(n).len() >= 1,
        n > 0 ==> decimal_text(n)[0] != '0',
        n < 10 ==> decimal_text(n).len() == 1,
        10 <= n < 100 ==> decimal_text(n).len() == 2,
    decreases n,
{
    if n < 10 {
        lemma_hex_digit_decimal(n as u8);
        assert(decimal_text(n).drop_last() =~= Seq::<char>::empty());
        assert(digits_value(Seq::<char>::empty()) == 0);
    } else {
        lemma_hex_digit_decimal((n % 10) as u8);
        lemma_decimal_text(n / 10);
        let s = decimal_text(n);
        assert(s.drop_last() =~= decimal_text(n / 10));
        assert(s.last() == hex_digit((n % 10) as u8));
        assert(digits_value(s) == (n / 10) * 10 + n % 10);
        assert(s[0] == decimal_text(n / 10)[0]);
        assert forall|i: int| 0 <= i < s.len() implies is_digit(#[trigger] s[i]) by {
            if i < s.len() - 1 {
                assert(s[i] == decimal_text(n / 10)[i]);
            }
        }
    }
}

/// Prefixes of a digit string are worth no more than the whole.
pub proof fn lemma_digits_value_prefix(s: Seq<char>, k: int)
    requires
        0 <= k <= s.len(),
        all_digits(s),
    ensures
        digits_value(s.take(k)) <= digits_value(s),
    decreases s.len() - k,
{
    if k < s.len() {
        lemma_digits_value_prefix(s, k + 1);
        assert(s.take(k + 1).drop_last() =~= s.take(k));
        assert(is_digit(s[k]));
        assert(s.take(k + 1).last() == s[k]);
    } else {
        assert(s.take(k) =~= s);
    }
}

/// Digit strings with an extra digit on the end.
pub proof fn lemma_digits_value_push(s: Seq<char>, c: char)
    ensures
        digits_value(s.push(c)) == digits_value(s) * 10 + (c as nat - '0' as nat) as nat,
{
    assert(s.push(c).drop_last() =~= s);
}

fn digit_char(d: u8) -> (c: char)
    requires
        d < 10,
    ensures
        c == hex_digit(d),
{
    hex_digit_exec(d)
}

/// The characters of `decimal_text(n)`.
pub fn decimal_chars(n: u64) -> (res: Vec<char>)
    ensures
        res@ == decimal_text(n as nat),
    decreases n,
{
    if n < 10 {
        let mut v: Vec<char> = Vec::new();
        v.push(digit_char(n as u8));
        assert(v@ =~= decimal_text(n as nat));
        v
    } else {
        let mut v = decimal_chars(n / 10);
        v.push(digit_char((n % 10) as u8));
        assert(v@ =~= decimal_text(n as nat));
        v
    }
}

/// How `i32::to_string` writes a number: a minus sign before a negative one.
pub open spec fn signed_text(n: int) -> Seq<char> {
    if n < 0 { seq!['-'] + decimal_text((-n) as nat) } else { decimal_text(n as nat) }
}

/// The characters of `signed_text(n)`.
pub fn signed_chars(n: i32) -> (res: Vec<char>)
    ensures
        res@ == signed_text(n as int),
{
    if n < 0 {
        let magnitude: u64 = (0i64 - (n as i64)) as u64;
        let mut v: Vec<char> = Vec::new();
        v.push('-');
        append_chars(&mut v, decimal_chars(magnitude).as_slice());
        v
    } else {
        decimal_chars(n as u64)
    }
}

/// `u32::from_str` on a string of characters.
pub fn parse_u32(s: &[char]) -> (res: Option<u32>)
    ensures
        res == parsed_u32(s@),
{
    let start: usize = if s.len() > 0 && s[0] == '+' { 1 } else { 0 };
    let ghost digits = unsigned_digits(s@);
    assert(digits =~= s@.subrange(start as int, s@.len() as int));
    if start == s.len() {
        return None;
    }
    let mut value: u64 = 0;
    let mut i: usize = start;
    while i < s.len()
        invariant
            start <= i <= s@.len(),
            digits == unsigned_digits(s@),
            digits =~= s@.subrange(start as int, s@.len() as int),
            all_digits(digits.take(i - start)),
            value as nat == digits_value(digits.take(i - start)),
            value <= u32::MAX,
        decreases s@.len() - i,
    {
        let c = s[i];
        if !('0' <= c && c <= '9') {
            assert(digits[i - start] == c);
            assert(!is_digit(digits[i - start]));
            assert(!all_digits(digits));
            assert(parsed_u32(s@) is None);
            return None;
        }
        proof {
            assert(digits.take(i - start + 1) =~= digits.take(i - start).push(c));
            lemma_digits_value_push(digits.take(i - start), c);
            assert(digits[i - start] == c);
        }
        let d = (c as u32 - '0' as u32) as u64;
        value = value * 10 + d;
        i = i + 1;
        if value > u32::MAX as u64 {
            proof {
                if all_digits(digits) {
                    lemma_digits_value_prefix(digits, i - start);
                    assert(digits_value(digits) > u32::MAX);
                }
                assert(parsed_u32(s@) is None);
            }
            return None;
        }
    }
    assert(digits.take(i - start) =~= digits);
    Some(value as u32)
}

/// Unicode White_Space, the characters `str::trim` removes.
pub open spec fn is_white_space(c: char) -> bool {
    ||| '\u{9}' <= c && c <= '\u{d}'
    ||| c == ' '
    ||| c == '\u{85}'
    ||| c == '\u{a0}'
    ||| c == '\u{1680}'
    ||| '\u{2000}' <= c && c <= '\u{200a}'
    ||| c == '\u{2028}'
    ||| c == '\u{2029}'
    ||| c == '\u{202f}'
    ||| c == '\u{205f}'
    ||| c == '\u{3000}'
}

/// `char::is_whitespace`.
pub fn white_space(c: char) -> (res: bool)
    ensures
        res == is_white_space(c),
{
    ('\u{9}' <= c && c <= '\u{d}') || c == ' ' || c == '\u{85}' || c == '\u{a0}' || c == '\u{1680}'
        || ('\u{2000}' <= c && c <= '\u{200a}') || c == '\u{2028}' || c == '\u{2029}'
        || c == '\u{202f}' || c == '\u{205f}' || c == '\u{3000}'
}

/// Without leading white space.
pub open spec fn trim_start(s: Seq<char>) -> Seq<char>
    decreases s.len(),
{
    if s.len() > 0 && is_white_space(s[0]) {
        trim_start(s.drop_first())
    } else {
        s
    }
}

/// Without trailing white space.
pub open spec fn trim_end(s: Seq<char>) -> Seq<char>
    decreases s.len(),
{
    if s.len() > 0 && is_white_space(s.last()) {
        trim_end(s.drop_last())
    } else {
        s
    }
}

/// What `str::trim` gives: leading and trailing white space removed.
pub open spec fn trimmed(s: Seq<char>) -> Seq<char> {
    trim_end(trim_start(s))
}

/// `str::trim` on a sequence of characters.
pub fn trim(s: &[char]) -> (res: Vec<char>)
    ensures
        res@ == trimmed(s@),
{
    let n = s.len();
    let mut a: usize = 0;
    assert(s@.subrange(0, n as int) =~= s@);
    while a < n && white_space(s[a])
        invariant
            a <= n == s@.len(),
            trim_start(s@) == trim_start(s@.subrange(a as int, n as int)),
        decreases n - a,
    {
        assert(s@.subrange(a as int, n as int).drop_first() =~= s@.subrange(a + 1, n as int));
        a = a + 1;
    }
    let ghost front = s@.subrange(a as int, n as int);
    assert(trim_start(front) == front);
    let mut b: usize = n;
    while b > a && white_space(s[b - 1])
        invariant
            a <= b <= n == s@.len(),
            front == s@.subrange(a as int, n as int),
            trim_end(front) == trim_end(s@.subrange(a as int, b as int)),
        decreases b - a,
    {
        assert(s@.subrange(a as int, b as int).drop_last() =~= s@.subrange(a as int, b - 1));
        b = b - 1;
    }
    let mut out: Vec<char> = Vec::new();
    let mut k: usize = a;
    while k < b
        invariant
            a <= k <= b <= n == s@.len(),
            out@ == s@.subrange(a as int, k as int),
        decreases b - k,
    {
        out.push(s[k]);
        assert(s@.subrange(a as int, k + 1) =~= s@.subrange(a as int, k as int).push(s@[k as int]));
        k = k + 1;
    }
    out
}

/// `char::to_ascii_lowercase`.
pub open spec fn lower_char(c: char) -> char {
    if 'A' <= c && c <= 'Z' { ((c as u32) + 32) as char } else { c }
}

/// `str::to_ascii_lowercase`.
pub open spec fn lowercase(s: Seq<char>) -> Seq<char> {
    s.map_values(|c: char| lower_char(c))
}

/// `str::to_ascii_lowercase` on characters.
pub fn lower(s: &[char]) -> (res: Vec<char>)
    ensures
        res@ == lowercase(s@),
{
    let mut out: Vec<char> = Vec::new();
    let mut k: usize = 0;
    while k < s.len()
        invariant
            k <= s@.len(),
            out@ == lowercase(s@.take(k as int)),
        decreases s@.len() - k,
    {
        let c = s[k];
        let l = if 'A' <= c && c <= 'Z' { ((c as u8) + 32) as char } else { c };
        out.push(l);
        assert(lowercase(s@.take(k + 1)) =~= lowercase(s@.take(k as int)).push(lower_char(c)));
        k = k + 1;
    }
    assert(s@.take(k as int) =~= s@);
    out
}

/// The parts that are not empty, joined with single spaces.
pub open spec fn join_nonempty(parts: Seq<Seq<char>>) -> Seq<char>
    decreases parts.len(),
{
    if parts.len() == 0 {
        Seq::empty()
    } else {
        let rest = join_nonempty(parts.drop_last());
        let last = parts.last();
        if last.len() == 0 {
            rest
        } else if rest.len() == 0 {
            last
        } else {
            rest + seq![' '] + last
        }
    }
}

/// Append the characters of one sequence to a vector.
pub fn append_chars(out: &mut Vec<char>, more: &[char])
    ensures
        final(out)@ == old(out)@ + more@,
{
    let mut k: usize = 0;
    while k < more.len()
        invariant
            k <= more@.len(),
            out@ == old(out)@ + more@.take(k as int),
        decreases more@.len() - k,
    {
        out.push(more[k]);
        assert(old(out)@ + more@.take(k + 1) =~= (old(out)@ + more@.take(k as int)).push(more@[k as int]));
        k = k + 1;
    }
    assert(more@.take(k as int) =~= more@);
}

/// Append the characters of a string slice.
pub fn append_str(out: &mut Vec<char>, s: &str)
    ensures
        final(out)@ == old(out)@ + s@,
{
    let chars = chars_of(s);
    append_chars(out, chars.as_slice());
}

/// Add a part to a space-joined text if it is not empty.
pub fn join_push(out: &mut Vec<char>, part: &[char])
    ensures
        final(out)@ == (if part@.len() == 0 {
            old(out)@
        } else if old(out)@.len() == 0 {
            part@
        } else {
            old(out)@ + seq![' '] + part@
        }),
{
    if part.len() == 0 {
        return;
    }
    if out.len() > 0 {
        out.push(' ');
    }
    let ghost before = out@;
    append_chars(out, part);
    proof {
        if old(out)@.len() == 0 {
            assert(before =~= Seq::<char>::empty());
            assert(out@ =~= part@);
        } else {
            assert(before =~= old(out)@ + seq![' ']);
        }
    }
}

/// Whether `pat` occurs in `s` starting at `k`.
pub open spec fn occurs_at(s: Seq<char>, pat: Seq<char>, k: int) -> bool {
    0 <= k && k + pat.len() <= s.len() && s.subrange(k, k + pat.len()) == pat
}

/// The first place at or after `k` where `pat` occurs in `s`.
pub open spec fn first_occurrence(s: Seq<char>, pat: Seq<char>, k: int) -> Option<int>
    decreases s.len() + 1 - k,
{
    if k < 0 || k + pat.len() > s.len() {
        None
    } else if occurs_at(s, pat, k) {
        Some(k)
    } else {
        first_occurrence(s, pat, k + 1)
    }
}

/// What `str::replacen(pat, rep, 1)` gives: the first occurrence of `pat`
/// replaced by `rep`, or `s` unchanged when there is none.
pub open spec fn replace_first(s: Seq<char>, pat: Seq<char>, rep: Seq<char>) -> Seq<char> {
    match first_occurrence(s, pat, 0) {
        None => s,
        Some(k) => s.take(k) + rep + s.skip(k + pat.len()),
    }
}

/// Whether `pat` occurs in `s` at `k`, compared character by character.
pub fn matches_at(s: &[char], pat: &[char], k: usize) -> (res: bool)
    requires
        k + pat@.len() <= s@.len(),
    ensures
        res == occurs_at(s@, pat@, k as int),
{
    let mut j: usize = 0;
    let n = s.len();
    while j < pat.len()
        invariant
            j <= pat@.len(),
            n == s@.len(),
            k + pat@.len() <= s@.len(),
            forall|i: int| 0 <= i < j ==> s@[k + i] == pat@[i],
        decreases pat@.len() - j,
    {
        if s[k + j] != pat[j] {
            assert(s@.subrange(k as int, k + pat@.len())[j as int] != pat@[j as int]);
            return false;
        }
        j = j + 1;
    }
    assert(s@.subrange(k as int, k + pat@.len()) =~= pat@);
    true
}

/// `replace_first` on character vectors.
pub fn replace_first_chars(s: &[char], pat: &[char], rep: &[char]) -> (res: Vec<char>)
    ensures
        res@ == replace_first(s@, pat@, rep@),
{
    let n = s.len();
    let m = pat.len();
    if m > n {
        let mut out: Vec<char> = Vec::new();
        append_chars(&mut out, s);
        assert(out@ =~= s@);
        return out;
    }
    if m == 0 {
        let mut out: Vec<char> = Vec::new();
        append_chars(&mut out, rep);
        append_chars(&mut out, s);
        assert(s@.subrange(0, 0) =~= pat@);
        assert(occurs_at(s@, pat@, 0));
        assert(s@.take(0) + rep@ + s@.skip(0) =~= out@);
        return out;
    }
    let mut k: usize = 0;
    while k <= n - m
        invariant
            1 <= m <= n == s@.len(),
            m == pat@.len(),
            k <= n - m + 1,
            first_occurrence(s@, pat@, 0) == first_occurrence(s@, pat@, k as int),
        decreases n - m + 1 - k,
    {
        if matches_at(s, pat, k) {
            let mut out: Vec<char> = Vec::new();
            let mut i: usize = 0;
            while i < k
                invariant
                    i <= k <= n == s@.len(),
                    out@ == s@.take(i as int),
                decreases k - i,
            {
                out.push(s[i]);
                assert(s@.take(i + 1) =~= s@.take(i as int).push(s@[i as int]));
                i = i + 1;
            }
            append_chars(&mut out, rep);
            let mut j: usize = k + m;
            let ghost mid = out@;
            while j < n
                invariant
                    k + m <= j <= n == s@.len(),
                    out@ == mid + s@.subrange(k + m, j as int),
                decreases n - j,
            {
                out.push(s[j]);
                assert(mid + s@.subrange(k + m, j + 1) =~= (mid + s@.subrange(k + m, j as int)).push(s@[j as int]));
                j = j + 1;
            }
            assert(s@.subrange(k + m, n as int) =~= s@.skip(k + m));
            return out;
        }
        k = k + 1;
    }
    let mut out: Vec<char> = Vec::new();
    append_chars(&mut out, s);
    assert(out@ =~= s@);
    out
}

/// Whether `pat` occurs anywhere in `s`.
pub open spec fn contains(s: Seq<char>, pat: Seq<char>) -> bool {
    first_occurrence(s, pat, 0) is Some
}

/// `str::contains` on character slices.
pub fn contains_chars(s: &[char], pat: &[char]) -> (res: bool)
    ensures
        res == contains(s@, pat@),
{
    let n = s.len();
    let m = pat.len();
    if m > n {
        return false;
    }
    if m == 0 {
        assert(s@.subrange(0, 0) =~= pat@);
        return true;
    }
    let mut k: usize = 0;
    while k <= n - m
        invariant
            1 <= m <= n == s@.len(),
            m == pat@.len(),
            k <= n - m + 1,
            first_occurrence(s@, pat@, 0) == first_occurrence(s@, pat@, k as int),
        decreases n - m + 1 - k,
    {
        if matches_at(s, pat, k) {
            return true;
        }
        k = k + 1;
    }
    false
}

/// Without any trailing copies of a character.
pub open spec fn trim_end_char(s: Seq<char>, c: char) -> Seq<char>
    decreases s.len(),
{
    if s.len() > 0 && s.last() == c {
        trim_end_char(s.drop_last(), c)
    } else {
        s
    }
}

/// `str::trim_end_matches` with one character.
pub fn trim_end_char_chars(s: &[char], c: char) -> (res: Vec<char>)
    ensures
        res@ == trim_end_char(s@, c),
{
    let mut b: usize = s.len();
    assert(s@.take(b as int) =~= s@);
    while b > 0 && s[b - 1] == c
        invariant
            b <= s@.len(),
            trim_end_char(s@, c) == trim_end_char(s@.take(b as int), c),
        decreases b,
    {
        assert(s@.take(b as int).drop_last() =~= s@.take(b - 1));
        b = b - 1;
    }
    let mut out: Vec<char> = Vec::new();
    append_chars(&mut out, &s[0..b]);
    assert(s@.subrange(0, b as int) =~= s@.take(b as int));
    out
}

/// The parts joined with a separator between each two.
pub open spec fn join_with(parts: Seq<Seq<char>>, sep: Seq<char>) -> Seq<char>
    decreases parts.len(),
{
    if parts.len() == 0 {
        Seq::empty()
    } else if parts.len() == 1 {
        parts[0]
    } else {
        join_with(parts.drop_last(), sep) + sep + parts.last()
    }
}

/// What `str::to_lowercase` gives: Unicode's lowercase mapping of the text,
/// which may change its length.
pub uninterp spec fn unicode_lowercase(s: Seq<char>) -> Seq<char>;

/// `str::to_lowercase`. The contract only names the result.
#[verifier::external_body]
pub(crate) fn to_lowercase(s: &str) -> (res: String)
    ensures
        res@ == unicode_lowercase(s@),
{
    s.to_lowercase()
}

/// Whether one text sorts before another, as `String`s compare: character
/// by character, and a text before any longer text it starts.
pub open spec fn text_less(a: Seq<char>, b: Seq<char>) -> bool
    decreases a.len(),
{
    if b.len() == 0 {
        false
    } else if a.len() == 0 {
        true
    } else if a[0] != b[0] {
        a[0] < b[0]
    } else {
        text_less(a.drop_first(), b.drop_first())
    }
}

/// No text sorts before itself, and of two texts at most one sorts first.
pub proof fn lemma_text_less_asymmetric(a: Seq<char>, b: Seq<char>)
    ensures
        !text_less(a, a),
        text_less(a, b) ==> !text_less(b, a),
    decreases a.len(),
{
    if a.len() > 0 {
        lemma_text_less_asymmetric(a.drop_first(), a.drop_first());
        if b.len() > 0 {
            lemma_text_less_asymmetric(a.drop_first(), b.drop_first());
        }
    }
}

/// Sorting no later is transitive: if `a` does not sort after `b` and `b`
/// not after `c`, then `a` does not sort after `c`.
pub proof fn lemma_text_not_less_transitive(a: Seq<char>, b: Seq<char>, c: Seq<char>)
    requires
        !text_less(b, a),
        !text_less(c, b),
    ensures
        !text_less(c, a),
    decreases a.len(),
{
    if a.len() > 0 && b.len() > 0 && c.len() > 0 && a[0] == b[0] && b[0] == c[0] {
        lemma_text_not_less_transitive(a.drop_first(), b.drop_first(), c.drop_first());
    }
}

/// `text_less` on character slices.
pub fn text_less_chars(a: &[char], b: &[char]) -> (res: bool)
    ensures
        res == text_less(a@, b@),
{
    let n = a.len();
    let m = b.len();
    let mut k: usize = 0;
    assert(a@.subrange(0, n as int) =~= a@);
    assert(b@.subrange(0, m as int) =~= b@);
    while k < n && k < m && a[k] == b[k]
        invariant
            k <= n == a@.len(),
            k <= m == b@.len(),
            text_less(a@, b@) == text_less(a@.subrange(k as int, n as int), b@.subrange(k as int, m as int)),
        decreases n - k,
    {
        assert(a@.subrange(k as int, n as int).drop_first() =~= a@.subrange(k + 1, n as int));
        assert(b@.subrange(k as int, m as int).drop_first() =~= b@.subrange(k + 1, m as int));
        k = k + 1;
    }
    if k == m {
        false
    } else if k == n {
        true
    } else {
        a[k] < b[k]
    }
}

/// The last place a character occurs.
pub open spec fn last_index_of(s: Seq<char>, c: char) -> Option<int>
    decreases s.len(),
{
    if s.len() == 0 {
        None
    } else if s.last() == c {
        Some(s.len() - 1)
    } else {
        last_index_of(s.drop_last(), c)
    }
}

/// Where a character last occurs is a place in the text that holds it.
pub proof fn lemma_last_index_of(s: Seq<char>, c: char)
    ensures
        last_index_of(s, c) matches Some(i) ==> 0 <= i < s.len() && s[i] == c,
    decreases s.len(),
{
    if s.len() > 0 && s.last() != c {
        lemma_last_index_of(s.drop_last(), c);
    }
}

/// The last place a character occurs in a slice.
pub fn last_index_of_char(s: &[char], c: char) -> (res: Option<usize>)
    ensures
        match last_index_of(s@, c) {
            Some(i) => res matches Some(r) && r == i && i < s@.len(),
            None => res is None,
        },
{
    proof { lemma_last_index_of(s@, c); }
    let mut k: usize = s.len();
    assert(s@.take(k as int) =~= s@);
    while k > 0
        invariant
            k <= s@.len(),
            last_index_of(s@, c) == last_index_of(s@.take(k as int), c),
        decreases k,
    {
        assert(s@.take(k as int).drop_last() =~= s@.take(k - 1));
        assert(s@.take(k as int).last() == s@[k - 1]);
        if s[k - 1] == c {
            return Some(k - 1);
        }
        k = k - 1;
    }
    None
}

/// What `str::replace` gives for a pattern that is not empty: every
/// occurrence of `pat`, from the left and without overlaps, replaced by
/// `rep`. For an empty `pat` this leaves `s` as it is, where `str::replace`
/// would put `rep` before every character and at the end; the library never
/// replaces an empty pattern (`replace_all_chars` requires one).
pub open spec fn replace_all(s: Seq<char>, pat: Seq<char>, rep: Seq<char>) -> Seq<char>
    decreases s.len(),
{
    if pat.len() == 0 {
        s
    } else {
        match first_occurrence(s, pat, 0) {
            None => s,
            Some(k) => if 0 <= k && k + pat.len() <= s.len() {
                s.take(k) + rep + replace_all(s.skip(k + pat.len()), pat, rep)
            } else {
                s
            },
        }
    }
}

/// The first occurrence found from `k` on is at or after `k` and within `s`.
pub proof fn lemma_first_occurrence(s: Seq<char>, pat: Seq<char>, k: int)
    requires
        0 <= k,
    ensures
        first_occurrence(s, pat, k) matches Some(i) ==> k <= i && i + pat.len() <= s.len() && occurs_at(s, pat, i),
        first_occurrence(s, pat, k) is None ==> forall|j: int| k <= j ==> !occurs_at(s, pat, j),
    decreases s.len() + 1 - k,
{
    if k + pat.len() <= s.len() && !occurs_at(s, pat, k) {
        lemma_first_occurrence(s, pat, k + 1);
    }
}

/// `str::replace` on character slices, for a pattern that is not empty.
pub fn replace_all_chars(s: &[char], pat: &[char], rep: &[char]) -> (res: Vec<char>)
    requires
        pat@.len() > 0,
    ensures
        res@ == replace_all(s@, pat@, rep@),
{
    let n = s.len();
    let m = pat.len();
    let mut out: Vec<char> = Vec::new();
    let mut start: usize = 0;
    let mut k: usize = 0;
    assert(s@.skip(0) =~= s@);
    while m <= n - k
        invariant
            m == pat@.len() >= 1,
            n == s@.len(),
            start <= k <= n,
            first_occurrence(s@.skip(start as int), pat@, 0) == first_occurrence(s@.skip(start as int), pat@, (k - start) as int),
            out@ + replace_all(s@.skip(start as int), pat@, rep@) == replace_all(s@, pat@, rep@),
        decreases n - k,
    {
        let ghost rest = s@.skip(start as int);
        if matches_at(s, pat, k) {
            proof {
                assert(s@.subrange(k as int, k + m) =~= rest.subrange(k - start, k - start + m));
                assert(occurs_at(rest, pat@, k - start));
                assert(first_occurrence(rest, pat@, (k - start) as int) == Some((k - start) as int));
                assert(rest.take(k - start) =~= s@.subrange(start as int, k as int));
                assert(rest.skip(k - start + m) =~= s@.skip(k + m));
            }
            append_chars(&mut out, &s[start..k]);
            append_chars(&mut out, rep);
            proof {
                assert(replace_all(rest, pat@, rep@) == rest.take(k - start) + rep@ + replace_all(s@.skip(k + m), pat@, rep@));
                assert(out@ + replace_all(s@.skip(k + m), pat@, rep@) =~= replace_all(s@, pat@, rep@));
            }
            start = k + m;
            k = k + m;
        } else {
            proof {
                assert(s@.subrange(k as int, k + m) =~= rest.subrange(k - start, k - start + m));
            }
            k = k + 1;
        }
    }
    proof {
        let rest = s@.skip(start as int);
        lemma_first_occurrence(rest, pat@, (k - start) as int);
        assert(first_occurrence(rest, pat@, (k - start) as int) is None);
        assert(rest =~= s@.subrange(start as int, n as int));
    }
    append_chars(&mut out, &s[start..n]);
    out
}

/// Whether two character sequences are the same.
pub fn chars_equal(a: &[char], b: &[char]) -> (res: bool)
    ensures
        res == (a@ == b@),
{
    if a.len() != b.len() {
        assert(a@.len() != b@.len());
        return false;
    }
    let mut k: usize = 0;
    while k < a.len()
        invariant
            k <= a@.len() == b@.len(),
            forall|j: int| 0 <= j < k ==> a@[j] == b@[j],
        decreases a@.len() - k,
    {
        if a[k] != b[k] {
            assert(a@[k as int] != b@[k as int]);
            return false;
        }
        k = k + 1;
    }
    assert(a@ =~= b@);
    true
}

} // verus!
