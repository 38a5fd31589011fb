//! Turning a read reply into the token number Net2 would show.
use vstd::prelude::*;
use crate::protocol::{OP_READ_HITAG2, OP_READ_MIFARE, Reply, hex, is_read, is_read_reply};
use crate::text::{
    all_digits, decimal_chars, decimal_text, digits_value, hex_text, is_digit, parse_u32,
    parsed_u32, lemma_decimal_text, lemma_digits_value_push,
};

verus! {

/// Which kind of token a read asks the reader for. Net2 cycles through five;
/// these are the two implemented here.
#[derive(Clone, Copy, Debug, PartialEq, Eq, Structural)]
pub enum Read {
    Mifare,
    /// Beta: decoded exactly as Net2 does, but never tested on a real fob.
    Hitag2,
}

impl Read {
    /// The opcode of the read command for this kind of token.
    pub open spec fn read_opcode(self) -> u8 {
        match self {
            Read::Mifare => OP_READ_MIFARE,
            Read::Hitag2 => OP_READ_HITAG2,
        }
    }

    /// The opcode that asks the reader for this kind of read.
    pub fn opcode(self) -> (op: u8)
        ensures
            op == self.read_opcode(),
    {
        match self {
            Read::Mifare => OP_READ_MIFARE,
            Read::Hitag2 => OP_READ_HITAG2,
        }
    }
}

/// A token found on the reader.
#[derive(Debug, PartialEq)]
pub struct Token {
    pub read: Read,
    pub hex: String,
    /// What Net2 shows as the token number.
    pub number: u32,
}

/// A token as the specifications see it.
pub struct TokenView {
    pub read: Read,
    pub hex: Seq<char>,
    pub number: u32,
}

impl View for Token {
    type V = TokenView;

    open spec fn view(&self) -> TokenView {
        TokenView { read: self.read, hex: self.hex@, number: self.number }
    }
}

impl Clone for Token {
    fn clone(&self) -> (res: Self)
        ensures
            res == *self,
    {
        Token { read: self.read, hex: self.hex.clone(), number: self.number }
    }
}

/// Four bytes read as a big-endian integer.
pub open spec fn be_u32(b0: u8, b1: u8, b2: u8, b3: u8) -> u32 {
    (b0 as nat * 0x1000000 + b1 as nat * 0x10000 + b2 as nat * 0x100 + b3 as nat) as u32
}

fn be_u32_exec(b0: u8, b1: u8, b2: u8, b3: u8) -> (res: u32)
    ensures
        res == be_u32(b0, b1, b2, b3),
{
    (b0 as u32) * 0x1000000 + (b1 as u32) * 0x10000 + (b2 as u32) * 0x100 + b3 as u32
}

/// One past the last non-zero byte, or 0 when every byte is zero.
pub open spec fn nonzero_end(p: Seq<u8>) -> nat
    decreases p.len(),
{
    if p.len() == 0 {
        0
    } else if p.last() != 0 {
        p.len()
    } else {
        nonzero_end(p.drop_last())
    }
}

/// Mifare UIDs come in 4, 7 or 10 bytes, so one ending in 00 keeps its last
/// byte rather than being cut at the zero padding.
pub open spec fn uid_len(end: nat) -> nat {
    if end <= 4 {
        4
    } else if end <= 7 {
        7
    } else if end <= 10 {
        10
    } else {
        end
    }
}

/// A Mifare read: the UID's hex, and its first four bytes big-endian keeping
/// the last eight decimal digits, as Net2 shows it. Nothing when the payload
/// is all zeros.
pub open spec fn mifare_token(p: Seq<u8>) -> Option<(Seq<char>, u32)> {
    let end = nonzero_end(p);
    if end == 0 {
        None
    } else {
        let uid = p.take(uid_len(end) as int);
        Some((hex_text(uid), (be_u32(uid[0], uid[1], uid[2], uid[3]) % 100_000_000) as u32))
    }
}

/// Net2's 5-bit digit codes, indexed by value. Mostly an odd-parity bit and
/// then the value MSB first, but 14 breaks that rule. 13 and 15 end a number.
pub open spec fn digit_code_of(d: int) -> u8 {
    if d == 0 { 0x10 }
    else if d == 1 { 0x01 }
    else if d == 2 { 0x02 }
    else if d == 3 { 0x13 }
    else if d == 4 { 0x04 }
    else if d == 5 { 0x15 }
    else if d == 6 { 0x16 }
    else if d == 7 { 0x07 }
    else if d == 8 { 0x08 }
    else if d == 9 { 0x19 }
    else if d == 10 { 0x1A }
    else if d == 11 { 0x0B }
    else if d == 12 { 0x1C }
    else if d == 13 { 0x0D }
    else if d == 14 { 0x1E }
    else { 0x1F }
}

/// The digit a 5-bit code stands for, if any.
pub open spec fn digit_of(code: u8) -> Option<u8> {
    if code == 0x10 { Some(0u8) }
    else if code == 0x01 { Some(1u8) }
    else if code == 0x02 { Some(2u8) }
    else if code == 0x13 { Some(3u8) }
    else if code == 0x04 { Some(4u8) }
    else if code == 0x15 { Some(5u8) }
    else if code == 0x16 { Some(6u8) }
    else if code == 0x07 { Some(7u8) }
    else if code == 0x08 { Some(8u8) }
    else if code == 0x19 { Some(9u8) }
    else if code == 0x1A { Some(10u8) }
    else if code == 0x0B { Some(11u8) }
    else if code == 0x1C { Some(12u8) }
    else if code == 0x0D { Some(13u8) }
    else if code == 0x1E { Some(14u8) }
    else if code == 0x1F { Some(15u8) }
    else { None }
}

/// The 5-bit code Net2 writes for a digit value below 16.
pub fn digit_code(d: usize) -> (code: u8)
    requires
        d < 16,
    ensures
        code == digit_code_of(d as int),
        digit_of(code) == Some(d as u8),
{
    if d == 0 { 0x10 }
    else if d == 1 { 0x01 }
    else if d == 2 { 0x02 }
    else if d == 3 { 0x13 }
    else if d == 4 { 0x04 }
    else if d == 5 { 0x15 }
    else if d == 6 { 0x16 }
    else if d == 7 { 0x07 }
    else if d == 8 { 0x08 }
    else if d == 9 { 0x19 }
    else if d == 10 { 0x1A }
    else if d == 11 { 0x0B }
    else if d == 12 { 0x1C }
    else if d == 13 { 0x0D }
    else if d == 14 { 0x1E }
    else { 0x1F }
}

fn digit(code: u8) -> (res: Option<u8>)
    ensures
        res == digit_of(code),
{
    if code == 0x10 { Some(0) }
    else if code == 0x01 { Some(1) }
    else if code == 0x02 { Some(2) }
    else if code == 0x13 { Some(3) }
    else if code == 0x04 { Some(4) }
    else if code == 0x15 { Some(5) }
    else if code == 0x16 { Some(6) }
    else if code == 0x07 { Some(7) }
    else if code == 0x08 { Some(8) }
    else if code == 0x19 { Some(9) }
    else if code == 0x1A { Some(10) }
    else if code == 0x0B { Some(11) }
    else if code == 0x1C { Some(12) }
    else if code == 0x0D { Some(13) }
    else if code == 0x1E { Some(14) }
    else if code == 0x1F { Some(15) }
    else { None }
}

/// (page, bit offset from the MSB) of the three card type digits in the newer
/// Hitag2 layout.
pub open spec fn card_type_positions() -> Seq<(usize, usize)> {
    seq![(6usize, 25usize), (7usize, 5usize), (7usize, 15usize)]
}

/// (page, bit offset from the MSB) of the eight digits of a user card's
/// number in the newer Hitag2 layout.
pub open spec fn user_card_positions() -> Seq<(usize, usize)> {
    seq![(5usize, 10usize), (5usize, 20usize), (6usize, 0usize), (6usize, 10usize),
        (4usize, 5usize), (4usize, 15usize), (4usize, 25usize), (5usize, 5usize)]
}

/// Where the card type digits are in the newer Hitag2 layout.
pub fn card_type_digits() -> (res: Vec<(usize, usize)>)
    ensures
        res@ == card_type_positions(),
{
    let mut v = Vec::new();
    v.push((6, 25));
    v.push((7, 5));
    v.push((7, 15));
    assert(v@ =~= card_type_positions());
    v
}

/// Where a user card's number digits are in the newer Hitag2 layout.
pub fn user_card_digits() -> (res: Vec<(usize, usize)>)
    ensures
        res@ == user_card_positions(),
{
    let mut v = Vec::new();
    v.push((5, 10));
    v.push((5, 20));
    v.push((6, 0));
    v.push((6, 10));
    v.push((4, 5));
    v.push((4, 15));
    v.push((4, 25));
    v.push((5, 5));
    assert(v@ =~= user_card_positions());
    v
}

/// Page `n` (2 to 7) of a TOKEN_R_DATA reply: four bytes, big-endian.
pub open spec fn page_value(p: Seq<u8>, n: int) -> u32 {
    let o = 4 * (n - 2);
    be_u32(p[o], p[o + 1], p[o + 2], p[o + 3])
}

/// The 5-bit code starting `off` bits below the top of page `page`.
pub open spec fn code_at(p: Seq<u8>, page: usize, off: usize) -> u8 {
    ((page_value(p, page as int) >> ((27 - off) as u32)) as u8) & 0x1Fu8
}

/// The decimal text of the digits at the given positions, each digit written
/// out in full (so a 12 is "12"), or nothing if any code is not a digit.
pub open spec fn digits_at(p: Seq<u8>, at: Seq<(usize, usize)>) -> Option<Seq<char>>
    decreases at.len(),
{
    if at.len() == 0 {
        Some(Seq::empty())
    } else {
        match digits_at(p, at.drop_last()) {
            None => None,
            Some(text) => match digit_of(code_at(p, at.last().0, at.last().1)) {
                None => None,
                Some(d) => Some(text + decimal_text(d as nat)),
            },
        }
    }
}

/// Net2's classic layout, scanned as DeriveNet2No does: 5-bit digits from
/// bit `i` of the 64-bit string, six in page 4, then from bit 32 (page 5) on,
/// until an end code. A leading run of 00000 counts as zeros; only zeros may
/// follow the last digit; only the first `len` bits count. The result is the
/// digit text, or nothing for junk after the digits.
pub open spec fn net2_scan(bits: u64, len: int, i: int, digits: Seq<char>, zeros: bool) -> Option<Seq<char>>
    decreases 64 - i,
{
    if i >= len - 5 || len > 64 {
        Some(digits)
    } else {
        let raw = (#[verifier::truncate] ((bits >> (#[verifier::truncate] ((59 - i) as u64))) as u8)) & 0x1Fu8;
        let pad = raw == 0 && (i == 0 || zeros);
        let code = if pad { 0x10u8 } else { raw };
        match digit_of(code) {
            None => if ((bits << (#[verifier::truncate] (i as u64))) >> (#[verifier::truncate] ((64 - (len - i)) as u64))) != 0 {
                None
            } else {
                Some(digits)
            },
            Some(d) => if d == 13 || d == 15 {
                Some(digits)
            } else {
                let more = digits + decimal_text(d as nat);
                net2_scan(bits, len, if more.len() == 6 && i < 32 { 32 } else { i + 5 }, more, pad)
            },
        }
    }
}

/// The last eight characters of a digit text (all of it when shorter).
pub open spec fn last_eight(digits: Seq<char>) -> Seq<char> {
    if digits.len() > 8 {
        digits.subrange(digits.len() - 8, digits.len() as int)
    } else {
        digits
    }
}

/// The number Net2's classic layout gives: the last eight digits.
pub open spec fn net2_value(bits: u64, len: int) -> Option<u32> {
    match net2_scan(bits, len, 0, Seq::empty(), false) {
        None => None,
        Some(digits) => Some(digits_value(last_eight(digits)) as u32),
    }
}

/// Pages 4 and 5 as one 64-bit string.
pub open spec fn pages_4_and_5(p: Seq<u8>) -> u64 {
    (page_value(p, 4) as nat * 0x1_0000_0000 + page_value(p, 5) as nat) as u64
}

/// Bits 26-29 of page 7, which pick the layout.
pub open spec fn layout(p: Seq<u8>) -> u32 {
    (page_value(p, 7) >> 2u32) & 0xFu32
}

/// The Net2 token number of a TOKEN_R_DATA reply, following
/// DeriveHitagTokenNo: page 7 says which layout the fob uses. 0 is no number
/// at all, and neither is one of more than eight digits, which Net2 cannot
/// show (a user card whose digit codes stand for 10 to 14 would give one).
pub open spec fn hitag2_value(p: Seq<u8>) -> Option<u32> {
    if p.len() < 24 {
        None
    } else {
        let number = if layout(p) == 4 {
            net2_value(pages_4_and_5(p), 64)
        } else if layout(p) == 1 {
            match digits_at(p, card_type_positions()) {
                None => None,
                Some(t) => if digits_value(t) == 1 {
                    match digits_at(p, user_card_positions()) {
                        None => None,
                        Some(u) => parsed_u32(u),
                    }
                } else {
                    net2_value(pages_4_and_5(p), 45)
                },
            }
        } else {
            None
        };
        match number {
            Some(n) => if 0 < n < 100_000_000 { Some(n) } else { None },
            None => None,
        }
    }
}

/// The token in a reply to a read of this kind, as (hex, number): only a read
/// reply that found a card has one.
pub open spec fn token_of(read: Read, msg_type: u8, p: Seq<u8>) -> Option<(Seq<char>, u32)> {
    if !is_read(msg_type, p) {
        None
    } else {
        match read {
            Read::Mifare => mifare_token(p),
            Read::Hitag2 => match hitag2_value(p) {
                None => None,
                Some(n) => Some((hex_text(p.subrange(8, 16)), n)),
            },
        }
    }
}

fn page_of(p: &[u8], n: usize) -> (res: u32)
    requires
        2 <= n <= 7,
        p@.len() >= 24,
    ensures
        res == page_value(p@, n as int),
{
    let o = 4 * (n - 2);
    be_u32_exec(p[o], p[o + 1], p[o + 2], p[o + 3])
}

fn code_at_exec(p: &[u8], page: usize, off: usize) -> (res: u8)
    requires
        2 <= page <= 7,
        off <= 27,
        p@.len() >= 24,
    ensures
        res == code_at(p@, page, off),
{
    ((page_of(p, page) >> ((27 - off) as u32)) as u8) & 0x1F
}

/// Append the decimal digits of a small number.
fn push_decimal(out: &mut Vec<char>, d: u8)
    ensures
        final(out)@ == old(out)@ + decimal_text(d as nat),
{
    let text = decimal_chars(d as u64);
    let mut k: usize = 0;
    while k < text.len()
        invariant
            k <= text@.len(),
            text@ == decimal_text(d as nat),
            out@ == old(out)@ + text@.take(k as int),
        decreases text@.len() - k,
    {
        out.push(text[k]);
        assert(old(out)@ + text@.take(k + 1) =~= (old(out)@ + text@.take(k as int)).push(text@[k as int]));
        k = k + 1;
    }
    assert(text@.take(k as int) =~= text@);
}

fn digits_at_exec(p: &[u8], at: &[(usize, usize)]) -> (res: Option<Vec<char>>)
    requires
        p@.len() >= 24,
        forall|k: int| 0 <= k < at@.len() ==> 2 <= (#[trigger] at@[k]).0 <= 7 && at@[k].1 <= 27,
    ensures
        match digits_at(p@, at@) {
            None => res is None,
            Some(t) => res matches Some(v) && v@ == t,
        },
{
    let mut out: Vec<char> = Vec::new();
    let mut i: usize = 0;
    while i < at.len()
        invariant
            i <= at@.len(),
            p@.len() >= 24,
            forall|k: int| 0 <= k < at@.len() ==> 2 <= (#[trigger] at@[k]).0 <= 7 && at@[k].1 <= 27,
            digits_at(p@, at@.take(i as int)) == Some(out@),
        decreases at@.len() - i,
    {
        let (page, off) = at[i];
        assert(at@.take(i + 1).drop_last() =~= at@.take(i as int));
        match digit(code_at_exec(p, page, off)) {
            None => {
                proof { lemma_digits_at_none_extends(p@, at@, i as int + 1); }
                return None;
            }
            Some(d) => push_decimal(&mut out, d),
        }
        i = i + 1;
    }
    assert(at@.take(i as int) =~= at@);
    Some(out)
}

proof fn lemma_digits_at_digits(p: Seq<u8>, at: Seq<(usize, usize)>)
    ensures
        digits_at(p, at) matches Some(t) ==> all_digits(t),
    decreases at.len(),
{
    if at.len() > 0 {
        lemma_digits_at_digits(p, at.drop_last());
        if let Some(t) = digits_at(p, at.drop_last()) {
            if let Some(d) = digit_of(code_at(p, at.last().0, at.last().1)) {
                lemma_decimal_text(d as nat);
                lemma_all_digits_concat(t, decimal_text(d as nat));
            }
        }
    }
}

/// Once a position is not a digit, no longer list of positions has digits.
proof fn lemma_digits_at_none_extends(p: Seq<u8>, at: Seq<(usize, usize)>, k: int)
    requires
        0 <= k <= at.len(),
        digits_at(p, at.take(k)) is None,
    ensures
        digits_at(p, at) is None,
    decreases at.len() - k,
{
    if k < at.len() {
        assert(at.take(k + 1).drop_last() =~= at.take(k));
        lemma_digits_at_none_extends(p, at, k + 1);
    } else {
        assert(at.take(k) =~= at);
    }
}

/// Powers of ten.
pub open spec fn pow10(n: nat) -> nat
    decreases n,
{
    if n == 0 { 1 } else { 10 * pow10((n - 1) as nat) }
}

proof fn lemma_digits_value_bound(s: Seq<char>)
    requires
        all_digits(s),
    ensures
        digits_value(s) < pow10(s.len()),
    decreases s.len(),
{
    if s.len() > 0 {
        assert(all_digits(s.drop_last())) by {
            assert forall|i: int| 0 <= i < s.drop_last().len() implies is_digit(#[trigger] s.drop_last()[i]) by {
                assert(s.drop_last()[i] == s[i]);
            }
        }
        lemma_digits_value_bound(s.drop_last());
        assert(is_digit(s[s.len() - 1]));
    }
}

proof fn lemma_all_digits_concat(a: Seq<char>, b: Seq<char>)
    requires
        all_digits(a),
        all_digits(b),
    ensures
        all_digits(a + b),
{
    assert forall|i: int| 0 <= i < (a + b).len() implies is_digit(#[trigger] (a + b)[i]) by {
        if i < a.len() {
            assert((a + b)[i] == a[i]);
        } else {
            assert((a + b)[i] == b[i - a.len()]);
        }
    }
}

proof fn lemma_last_eight_bound(digits: Seq<char>)
    requires
        all_digits(digits),
    ensures
        all_digits(last_eight(digits)),
        digits_value(last_eight(digits)) < 100_000_000,
{
    let t = last_eight(digits);
    assert forall|i: int| 0 <= i < t.len() implies is_digit(#[trigger] t[i]) by {
        if digits.len() > 8 {
            assert(t[i] == digits[digits.len() - 8 + i]);
        }
    }
    lemma_digits_value_bound(t);
    lemma_pow10_monotone(t.len(), 8);
    assert(pow10(8) == 100_000_000) by {
        reveal_with_fuel(pow10, 9);
    }
}

proof fn lemma_pow10_monotone(a: nat, b: nat)
    requires
        a <= b,
    ensures
        pow10(a) <= pow10(b),
    decreases b,
{
    if a < b {
        lemma_pow10_monotone(a, (b - 1) as nat);
    }
}

/// The digits of the last eight characters, as a number.
fn last_eight_number(digits: &Vec<char>) -> (res: u32)
    requires
        all_digits(digits@),
    ensures
        res == digits_value(last_eight(digits@)) as u32,
        (res as nat) == digits_value(last_eight(digits@)),
        res < 100_000_000,
{
    let n = digits.len();
    let start: usize = if n > 8 { n - 8 } else { 0 };
    let ghost t = last_eight(digits@);
    assert(t =~= digits@.subrange(start as int, n as int));
    proof { lemma_last_eight_bound(digits@); }
    let mut value: u32 = 0;
    let mut k: usize = start;
    while k < n
        invariant
            start <= k <= n == digits@.len(),
            n - start <= 8,
            t == digits@.subrange(start as int, n as int),
            all_digits(t),
            digits_value(t) < 100_000_000,
            value as nat == digits_value(t.take(k - start)),
        decreases n - k,
    {
        let c = digits[k];
        proof {
            assert(t.take(k - start + 1) =~= t.take(k - start).push(c));
            lemma_digits_value_push(t.take(k - start), c);
            assert(is_digit(t[k - start]));
            crate::text::lemma_digits_value_prefix(t, k - start + 1);
        }
        value = value * 10 + (c as u32 - '0' as u32);
        k = k + 1;
    }
    assert(t.take(n - start) =~= t);
    value
}

/// Net2's classic layout: 5-bit digits from the top of pages 4 and 5, six in
/// page 4, then the rest from the start of page 5, stopping at 13 or 15. Only
/// the first `len` bits count. Follows DeriveNet2No, quirks included.
pub fn net2_number(bits: u64, len: usize) -> (res: Option<u32>)
    requires
        5 <= len <= 64,
    ensures
        res == net2_value(bits, len as int),
        res matches Some(n) ==> n < 100_000_000,
{
    let mut digits: Vec<char> = Vec::new();
    let mut zeros = false;
    let mut done = false;
    let mut i: usize = 0;
    while !done && i < len - 5
        invariant
            5 <= len <= 64,
            i <= 64,
            all_digits(digits@),
            i < 32 ==> 5 * digits@.len() >= i,
            i >= 32 ==> digits@.len() >= 6,
            done ==> net2_scan(bits, len as int, 0, Seq::empty(), false) == Some(digits@),
            !done ==> net2_scan(bits, len as int, 0, Seq::empty(), false)
                == net2_scan(bits, len as int, i as int, digits@, zeros),
        decreases 64 - i, if done { 0int } else { 1int },
    {
        let raw = ((bits >> ((59 - i) as u64)) as u8) & 0x1F;
        let pad = raw == 0 && (i == 0 || zeros);
        let code = if pad { 0x10 } else { raw };
        match digit(code) {
            None => {
                if (bits << (i as u64)) >> ((64 - (len - i)) as u64) != 0 {
                    return None;
                }
                done = true;
            }
            Some(d) => {
                if d == 13 || d == 15 {
                    done = true;
                } else {
                    let ghost before = digits@;
                    push_decimal(&mut digits, d);
                    proof {
                        lemma_decimal_text(d as nat);
                        lemma_all_digits_concat(before, decimal_text(d as nat));
                    }
                    zeros = pad;
                    i = if digits.len() == 6 { 32 } else { i + 5 };
                }
            }
        }
    }
    Some(last_eight_number(&digits))
}

/// The Net2 token number from a TOKEN_R_DATA reply, following
/// DeriveHitagTokenNo in Net2's desktop reader service. Page 7 says which
/// layout the fob uses. Net2 also rewrites some old fobs at this point; that
/// is left out, since this library never writes to a token.
pub fn hitag2_number(payload: &[u8]) -> (res: Option<u32>)
    ensures
        res == hitag2_value(payload@),
        res matches Some(n) ==> 0 < n < 100_000_000,
{
    if payload.len() < 24 {
        return None;
    }
    let page4 = page_of(payload, 4);
    let page5 = page_of(payload, 5);
    let pages = (page4 as u64) * 0x1_0000_0000 + page5 as u64;
    let kind = (page_of(payload, 7) >> 2) & 0xF;
    let number = if kind == 4 {
        net2_number(pages, 64)
    } else if kind == 1 {
        let card_type = card_type_digits();
        match digits_at_exec(payload, card_type.as_slice()) {
            None => return None,
            Some(t) => {
                proof { lemma_digits_at_digits(payload@, card_type_positions()); }
                if is_one(&t) {
                    let user = user_card_digits();
                    match digits_at_exec(payload, user.as_slice()) {
                        None => None,
                        Some(u) => parse_u32(u.as_slice()),
                    }
                } else {
                    net2_number(pages, 45)
                }
            }
        }
    } else {
        None
    };
    match number {
        Some(n) => if 0 < n && n < 100_000_000 { Some(n) } else { None },
        None => None,
    }
}

/// Whether a digit text is worth exactly 1 (how "001" reads as card type 1).
fn is_one(t: &Vec<char>) -> (res: bool)
    requires
        all_digits(t@),
    ensures
        res == (digits_value(t@) == 1),
{
    let mut k: usize = 0;
    let mut ones: usize = 0;
    let mut last_one = false;
    // the value is 1 exactly when every digit is 0 but the last, which is 1
    while k < t.len()
        invariant
            k <= t@.len(),
            all_digits(t@),
            ones <= k,
            ones == 0 ==> digits_value(t@.take(k as int)) == 0,
            ones == 1 && last_one ==> digits_value(t@.take(k as int)) == 1,
            ones == 1 && !last_one ==> digits_value(t@.take(k as int)) >= 2,
            ones >= 2 ==> digits_value(t@.take(k as int)) >= 10,
        decreases t@.len() - k,
    {
        let c = t[k];
        proof {
            assert(t@.take(k + 1) =~= t@.take(k as int).push(c));
            lemma_digits_value_push(t@.take(k as int), c);
            assert(is_digit(t@[k as int]));
        }
        if c != '0' {
            ones = ones + 1;
            last_one = c == '1';
        } else {
            last_one = false;
        }
        k = k + 1;
    }
    assert(t@.take(k as int) =~= t@);
    ones == 1 && last_one
}

/// The token, if this reply is a read that found a card. An empty payload
/// means the reader answered but there was nothing on it. Any number found is
/// one Net2 can show (at most eight digits), and a Hitag2 number is never 0.
pub fn token(read: Read, reply: &Reply) -> (res: Option<Token>)
    ensures
        match token_of(read, reply.msg_type, reply.payload@) {
            None => res is None,
            Some((h, n)) => res matches Some(t) && t.read == read && t.hex@ == h && t.number == n,
        },
        res matches Some(t) ==> {
            &&& t.number < 100_000_000
            &&& read == Read::Hitag2 ==> t.number > 0
        },
{
    if !is_read_reply(reply) {
        return None;
    }
    let p = reply.payload.as_slice();
    match read {
        Read::Mifare => {
            let mut end: usize = p.len();
            assert(p@.take(end as int) =~= p@);
            while end > 0 && p[end - 1] == 0
                invariant
                    end <= p@.len(),
                    nonzero_end(p@) == nonzero_end(p@.take(end as int)),
                decreases end,
            {
                assert(p@.take(end as int).drop_last() =~= p@.take(end - 1));
                end = end - 1;
            }
            proof {
                if end > 0 {
                    assert(p@.take(end as int).last() == p@[end - 1]);
                } else {
                    assert(p@.take(0) =~= Seq::<u8>::empty());
                }
            }
            if end == 0 {
                return None;
            }
            let len: usize = if end <= 4 { 4 } else if end <= 7 { 7 } else if end <= 10 { 10 } else { end };
            let uid = &p[0..len];
            assert(uid@ =~= p@.take(uid_len(end as nat) as int));
            let number = be_u32_exec(uid[0], uid[1], uid[2], uid[3]) % 100_000_000;
            Some(Token { read, hex: hex(uid), number })
        }
        Read::Hitag2 => {
            match hitag2_number(p) {
                None => None,
                Some(number) => {
                    let pages = &p[8..16];
                    Some(Token { read, hex: hex(pages), number })
                }
            }
        }
    }
}

/// The hex of some bytes has two characters per byte: the upper then the
/// lower four bits of each, in order.
#[verifier::spinoff_prover]
pub proof fn lemma_hex_text_digits(bytes: Seq<u8>)
    ensures
        hex_text(bytes).len() == 2 * bytes.len(),
        forall|i: int| 0 <= i < bytes.len() ==> {
            &&& #[trigger] hex_text(bytes)[2 * i] == crate::text::hex_digit(bytes[i] / 16)
            &&& hex_text(bytes)[2 * i + 1] == crate::text::hex_digit(bytes[i] % 16)
        },
    decreases bytes.len(),
{
    if bytes.len() > 0 {
        let rest = bytes.drop_last();
        let b = bytes.last();
        lemma_hex_text_digits(rest);
        let h = hex_text(bytes);
        let tail = seq![crate::text::hex_digit(b / 16), crate::text::hex_digit(b % 16)];
        assert(h == hex_text(rest) + tail);
        assert forall|i: int| 0 <= i < bytes.len() implies {
            &&& #[trigger] h[2 * i] == crate::text::hex_digit(bytes[i] / 16)
            &&& h[2 * i + 1] == crate::text::hex_digit(bytes[i] % 16)
        } by {
            if i < rest.len() {
                assert(hex_text(rest)[2 * i] == crate::text::hex_digit(rest[i] / 16));
                assert(hex_text(rest)[2 * i + 1] == crate::text::hex_digit(rest[i] % 16));
                assert(rest[i] == bytes[i]);
                assert(h[2 * i] == hex_text(rest)[2 * i]);
                assert(h[2 * i + 1] == hex_text(rest)[2 * i + 1]);
            } else {
                assert(i == rest.len());
                assert(bytes[i] == b);
                assert(h[2 * i] == tail[0]);
                assert(h[2 * i + 1] == tail[1]);
            }
        }
    }
}

/// Every non-zero byte lies before `nonzero_end`, which lies within the bytes.
proof fn lemma_nonzero_end(p: Seq<u8>)
    ensures
        nonzero_end(p) <= p.len(),
        forall|i: int| 0 <= i < p.len() && #[trigger] p[i] != 0 ==> i < nonzero_end(p),
    decreases p.len(),
{
    if p.len() > 0 && p.last() == 0 {
        lemma_nonzero_end(p.drop_last());
        assert forall|i: int| 0 <= i < p.len() && #[trigger] p[i] != 0 implies i < nonzero_end(p) by {
            assert(i < p.len() - 1);
            assert(p.drop_last()[i] == p[i]);
        }
    }
}

/// A Mifare read that found a card gives the number Net2 shows: the first
/// four payload bytes read big-endian, keeping the last eight decimal digits,
/// whatever the UID's length; its hex starts with those four bytes, upper
/// case. A read of nothing but zeros finds no card.
pub proof fn lemma_mifare_number_is_the_first_four_bytes(msg_type: u8, p: Seq<u8>)
    requires
        is_read(msg_type, p),
    ensures
        (exists|i: int| 0 <= i < p.len() && p[i] != 0) ==> (token_of(Read::Mifare, msg_type, p) matches Some((h, n)) && {
            &&& n as int == (p[0] as int * 16777216 + p[1] as int * 65536 + p[2] as int * 256 + p[3] as int) % 100_000_000
            &&& forall|i: int| 0 <= i < 4 ==> {
                &&& #[trigger] h[2 * i] == crate::text::hex_digit(p[i] / 16)
                &&& h[2 * i + 1] == crate::text::hex_digit(p[i] % 16)
            }
        }),
        (forall|i: int| 0 <= i < p.len() ==> p[i] == 0) ==> token_of(Read::Mifare, msg_type, p) is None,
{
    lemma_nonzero_end(p);
    let end = nonzero_end(p);
    if exists|i: int| 0 <= i < p.len() && p[i] != 0 {
        let i = choose|i: int| 0 <= i < p.len() && p[i] != 0;
        assert(p[i] != 0);
        assert(end > 0);
        let uid = p.take(uid_len(end) as int);
        assert(uid_len(end) <= p.len());
        lemma_hex_text_digits(uid);
        assert(uid[0] == p[0] && uid[1] == p[1] && uid[2] == p[2] && uid[3] == p[3]);
        let h = hex_text(uid);
        assert forall|i: int| 0 <= i < 4 implies {
            &&& #[trigger] h[2 * i] == crate::text::hex_digit(p[i] / 16)
            &&& h[2 * i + 1] == crate::text::hex_digit(p[i] % 16)
        } by {
            assert(uid[i] == p[i]);
        }
    }
    if forall|i: int| 0 <= i < p.len() ==> p[i] == 0 {
        if end > 0 {
            assert(p[end - 1] != 0) by {
                lemma_nonzero_end_last(p);
            }
        }
    }
}

/// When some byte is not zero, the byte just before `nonzero_end` is one.
proof fn lemma_nonzero_end_last(p: Seq<u8>)
    ensures
        nonzero_end(p) > 0 ==> p[nonzero_end(p) - 1] != 0,
    decreases p.len(),
{
    if p.len() > 0 && p.last() == 0 {
        lemma_nonzero_end_last(p.drop_last());
        lemma_nonzero_end(p.drop_last());
        if nonzero_end(p) > 0 {
            assert(p.drop_last()[nonzero_end(p) - 1] == p[nonzero_end(p) - 1]);
        }
    }
}

/// A Hitag2 token's hex is that of pages 4 and 5, payload bytes 8 to 15,
/// upper case, two characters per byte.
pub proof fn lemma_hitag2_hex_is_pages_4_and_5(msg_type: u8, p: Seq<u8>)
    ensures
        token_of(Read::Hitag2, msg_type, p) matches Some((h, n)) ==> {
            &&& h.len() == 16
            &&& forall|i: int| 0 <= i < 8 ==> {
                &&& #[trigger] h[2 * i] == crate::text::hex_digit(p[8 + i] / 16)
                &&& h[2 * i + 1] == crate::text::hex_digit(p[8 + i] % 16)
            }
        },
{
    if token_of(Read::Hitag2, msg_type, p) is Some {
        let pages = p.subrange(8, 16);
        lemma_hex_text_digits(pages);
        let h = hex_text(pages);
        assert forall|i: int| 0 <= i < 8 implies {
            &&& #[trigger] h[2 * i] == crate::text::hex_digit(p[8 + i] / 16)
            &&& h[2 * i + 1] == crate::text::hex_digit(p[8 + i] % 16)
        } by {
            assert(pages[i] == p[8 + i]);
        }
    }
}

} // verus!
