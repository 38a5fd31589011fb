//! Framing for the reader's HID reports: building commands and parsing replies.
//!
//! A frame is STX, length, address, opcode, payload, checksum, padded with
//! zeros to the 41-byte report and ended by EOT. With the high bit set in the
//! address, the opcode and payload are XORed with the repeating key
//! "Elephant", starting at key index (address mod 8).
use vstd::prelude::*;
use crate::text::{hex_text, hex_chars, string_of};

verus! {

/// The reader declares one 41-byte input report and one 41-byte output report.
pub const REPORT_BYTES: usize = 41;

/// Any address with the high bit set works; it only picks the key phase.
pub const ADDR: u8 = 0x88;

/// RWD_LEDS: Net2 sets the LEDs before every read, and the reader stays idle
/// without it.
pub const OP_LEDS: u8 = 0x24;
/// The argument Net2 gives the LED command.
pub const LEDS_ARG: u8 = 0x0A;

/// RWD_READ_MIFARE: answers with the card's UID, then zero padding.
pub const OP_READ_MIFARE: u8 = 0xD7;

/// TOKEN_R_DATA: answers with Hitag2 pages 2 to 7, four bytes each.
pub const OP_READ_HITAG2: u8 = 0x14;

/// Decoded reply type: the reader understood and answered.
pub const ACK: u8 = 0x10;

/// "I did not understand", echoing our own bytes back. Sent unobfuscated even
/// when the address asks for obfuscation, so it is read straight off the wire.
pub const NAK: u8 = 0x13;

/// Longest payload that still leaves room for the checksum and the EOT byte.
pub const MAX_PAYLOAD: usize = 35;

/// The obfuscation key "Elephant", one byte per position.
pub open spec fn key_byte(i: int) -> u8 {
    if i == 0 { 0x45 }
    else if i == 1 { 0x6C }
    else if i == 2 { 0x65 }
    else if i == 3 { 0x70 }
    else if i == 4 { 0x68 }
    else if i == 5 { 0x61 }
    else if i == 6 { 0x6E }
    else { 0x74 }
}

fn key_byte_exec(i: usize) -> (b: u8)
    requires
        i < 8,
    ensures
        b == key_byte(i as int),
{
    if i == 0 { 0x45 }
    else if i == 1 { 0x6C }
    else if i == 2 { 0x65 }
    else if i == 3 { 0x70 }
    else if i == 4 { 0x68 }
    else if i == 5 { 0x61 }
    else if i == 6 { 0x6E }
    else { 0x74 }
}

/// Whether an address asks for obfuscation: its high bit is set.
pub open spec fn obfuscated(addr: u8) -> bool {
    addr >= 0x80
}

/// The body (opcode and payload) as scrambled, or unscrambled, for `addr`.
pub open spec fn masked(addr: u8, body: Seq<u8>) -> Seq<u8> {
    if obfuscated(addr) {
        Seq::new(body.len(), |i: int| body[i] ^ key_byte((addr + i) % 8))
    } else {
        body
    }
}

/// Sum of the bytes, as a natural number.
pub open spec fn byte_sum(bytes: Seq<u8>) -> nat
    decreases bytes.len(),
{
    if bytes.len() == 0 {
        0
    } else {
        byte_sum(bytes.drop_last()) + bytes.last() as nat
    }
}

/// Bitwise NOT of the sum of the covered bytes, mod 256.
pub open spec fn checksum_of(covered: Seq<u8>) -> u8 {
    (255 - byte_sum(covered) % 256) as u8
}

/// The 41 bytes of the report that carries `opcode` and `data` to `addr`.
pub open spec fn frame_bytes(addr: u8, opcode: u8, data: Seq<u8>) -> Seq<u8> {
    let len = 5 + data.len();
    let head = seq![0x02u8, len as u8, addr] + masked(addr, seq![opcode] + data);
    head.push(checksum_of(head)) + Seq::new((40 - len) as nat, |i: int| 0u8) + seq![0x04u8]
}

/// What a received report decodes to: the message type and its payload, or
/// nothing when the bytes are not a well-formed frame.
pub open spec fn parsed(bytes: Seq<u8>) -> Option<(u8, Seq<u8>)> {
    if bytes.len() < 2 {
        None
    } else {
        let len = bytes[1] as int;
        if bytes[0] != 0x02 || len < 5 || len > bytes.len() {
            None
        } else if bytes[len - 1] != checksum_of(bytes.take(len - 1)) {
            None
        } else {
            let wire = bytes.subrange(3, len - 1);
            // a NAK is never masked
            let clear = if wire[0] == NAK { wire } else { masked(bytes[2], wire) };
            Some((clear[0], clear.drop_first()))
        }
    }
}

/// A read answers with a long padded ack; the LED command with a short one.
pub open spec fn is_read(msg_type: u8, payload: Seq<u8>) -> bool {
    msg_type == ACK && payload.len() >= 16
}

/// The byte the opcode becomes on the wire for `addr`.
pub open spec fn wire_opcode(addr: u8, opcode: u8) -> u8 {
    masked(addr, seq![opcode])[0]
}

proof fn lemma_xor_twice(b: u8, k: u8)
    ensures
        (b ^ k) ^ k == b,
{
    assert((b ^ k) ^ k == b) by (bit_vector);
}

/// Masking is its own inverse, which is what lets one routine both build and
/// read frames.
pub proof fn lemma_mask_involution(addr: u8, body: Seq<u8>)
    ensures
        masked(addr, masked(addr, body)) == body,
{
    if obfuscated(addr) {
        assert forall|i: int| 0 <= i < body.len() implies #[trigger] masked(addr, masked(addr, body))[i] == body[i] by {
            lemma_xor_twice(body[i], key_byte((addr + i) % 8));
        }
    }
    assert(masked(addr, masked(addr, body)) =~= body);
}

proof fn lemma_key_byte_nonzero(i: int)
    ensures
        key_byte(i) != 0,
        NAK ^ key_byte(i) != NAK,
{
    let k = key_byte(i);
    assert(k != 0u8 ==> (NAK ^ k) != NAK) by (bit_vector);
}

/// A frame parses back to the opcode and payload it was built from, at every
/// address, unless the opcode's wire byte would read as a plaintext NAK. That
/// is the one ambiguity of the encoding: a masked opcode whose wire byte is
/// 0x13 looks exactly like the reader's unmasked NAK.
pub proof fn lemma_frame_parse_roundtrip(addr: u8, opcode: u8, data: Seq<u8>)
    requires
        data.len() <= MAX_PAYLOAD,
        wire_opcode(addr, opcode) == NAK ==> opcode == NAK,
    ensures
        parsed(frame_bytes(addr, opcode, data)) == Some((opcode, data)),
{
    let len = 5 + data.len();
    let body = seq![opcode] + data;
    let head = seq![0x02u8, len as u8, addr] + masked(addr, body);
    let bytes = frame_bytes(addr, opcode, data);
    assert(bytes[1] as int == len);
    assert(bytes.take(len - 1) =~= head);
    let wire = bytes.subrange(3, len - 1);
    assert(wire =~= masked(addr, body));
    if wire[0] == NAK {
        if obfuscated(addr) {
            lemma_key_byte_nonzero((addr + 0) % 8);
            assert(wire[0] == body[0] ^ key_byte((addr + 0) % 8));
            assert(false);
        }
        assert(wire =~= body);
    } else {
        lemma_mask_involution(addr, body);
    }
    assert(body.drop_first() =~= data);
}

/// The opcodes this app builds, plus the reply types the reader sends back.
pub open spec fn real_opcode(op: u8) -> bool {
    op == ACK || op == NAK || op == 0x00 || op == OP_READ_HITAG2 || op == OP_LEDS || op == 0x25
        || op == 0x28 || op == 0x64 || op == OP_READ_MIFARE
}

/// No opcode in real traffic can produce the wire byte 0x13 under any of the
/// eight key positions, so the NAK ambiguity cannot bite.
pub proof fn lemma_real_opcodes_are_unambiguous(addr: u8, op: u8)
    requires
        real_opcode(op),
    ensures
        wire_opcode(addr, op) == NAK ==> op == NAK,
{
    if obfuscated(addr) {
        let k = key_byte((addr + 0) % 8);
        assert(wire_opcode(addr, op) == op ^ k);
        assert((op == 0x10u8 || op == 0x13u8 || op == 0x00u8 || op == 0x14u8 || op == 0x24u8
            || op == 0x25u8 || op == 0x28u8 || op == 0x64u8 || op == 0xD7u8) && (k == 0x45u8
            || k == 0x6Cu8 || k == 0x65u8 || k == 0x70u8 || k == 0x68u8 || k == 0x61u8
            || k == 0x6Eu8 || k == 0x74u8) ==> ((op ^ k) != 0x13u8)) by (bit_vector);
    }
}

/// Sum of the bytes in a prefix, as the checksum loop computes it.
fn checksum_prefix(bytes: &[u8], n: usize) -> (c: u8)
    requires
        n <= bytes@.len(),
    ensures
        c == checksum_of(bytes@.take(n as int)),
{
    let mut sum: u8 = 0;
    let mut i: usize = 0;
    while i < n
        invariant
            i <= n <= bytes@.len(),
            sum as nat == byte_sum(bytes@.take(i as int)) % 256,
        decreases n - i,
    {
        assert(bytes@.take(i + 1).drop_last() =~= bytes@.take(i as int));
        sum = ((sum as u16 + bytes[i] as u16) % 256) as u8;
        i = i + 1;
    }
    255 - sum
}

/// Bitwise NOT of the sum of every covered byte, mod 256.
pub fn checksum(covered: &[u8]) -> (c: u8)
    ensures
        c == checksum_of(covered@),
{
    let c = checksum_prefix(covered, covered.len());
    assert(covered@.take(covered@.len() as int) =~= covered@);
    c
}

/// Scramble (or unscramble: it is the same XOR) the opcode and payload for an
/// address, which is the only thing that decides the key phase.
pub fn mask(addr: u8, body: &mut [u8])
    ensures
        final(body)@ == masked(addr, old(body)@),
{
    if addr < 0x80 {
        return;
    }
    let n = body.len();
    let mut i: usize = 0;
    while i < n
        invariant
            n == body@.len() == old(body)@.len(),
            i <= n,
            addr >= 0x80,
            forall|j: int| 0 <= j < i ==> body@[j] == old(body)@[j] ^ key_byte((addr + j) % 8),
            forall|j: int| i <= j < n ==> body@[j] == old(body)@[j],
        decreases n - i,
    {
        let k = key_byte_exec((addr as usize % 8 + i % 8) % 8);
        assert((addr as usize % 8 + i % 8) % 8 == (addr + i) % 8);
        body[i] = body[i] ^ k;
        i = i + 1;
    }
    assert(body@ =~= masked(addr, old(body)@));
}

/// Build a frame: STX, length, address, opcode, payload, checksum, zero
/// padding and EOT. The length counts STX through checksum, which is how the
/// reader frames replies. Only payloads that leave room for the checksum and
/// the EOT byte are accepted.
pub fn frame(addr: u8, opcode: u8, data: &[u8]) -> (res: [u8; REPORT_BYTES])
    requires
        data@.len() <= MAX_PAYLOAD,
    ensures
        res@ == frame_bytes(addr, opcode, data@),
{
    let n = data.len();
    let len = 5 + n;
    let mut body: Vec<u8> = Vec::new();
    body.push(opcode);
    let mut i: usize = 0;
    while i < n
        invariant
            i <= n == data@.len(),
            body@ == seq![opcode] + data@.take(i as int),
        decreases n - i,
    {
        body.push(data[i]);
        assert(seq![opcode] + data@.take(i + 1) =~= (seq![opcode] + data@.take(i as int)).push(data@[i as int]));
        i = i + 1;
    }
    assert(data@.take(n as int) =~= data@);
    let ghost clear = body@;
    mask(addr, body.as_mut_slice());
    let mut buf = [0u8; REPORT_BYTES];
    buf[0] = 0x02;
    buf[1] = len as u8;
    buf[2] = addr;
    let mut j: usize = 0;
    while j < body.len()
        invariant
            body@.len() == n + 1,
            n <= MAX_PAYLOAD,
            j <= body@.len(),
            buf@.len() == REPORT_BYTES,
            buf@[0] == 0x02u8,
            len == 5 + n,
            buf@[1] == #[verifier::truncate] (len as u8),
            buf@[2] == addr,
            forall|k: int| 0 <= k < j ==> buf@[3 + k] == body@[k],
            forall|k: int| 3 + j <= k < REPORT_BYTES ==> buf@[k] == 0u8,
        decreases body@.len() - j,
    {
        buf[3 + j] = body[j];
        j = j + 1;
    }
    let ghost head = seq![0x02u8, len as u8, addr] + masked(addr, seq![opcode] + data@);
    proof {
        assert(body@ == masked(addr, seq![opcode] + data@));
        assert(head =~= buf@.take(len - 1));
    }
    let c = checksum_prefix(&buf, len - 1);
    buf[len - 1] = c;
    buf[40] = 0x04;
    proof {
        let expected = frame_bytes(addr, opcode, data@);
        assert(expected.len() == REPORT_BYTES);
        assert forall|k: int| 0 <= k < REPORT_BYTES implies #[trigger] buf@[k] == expected[k] by {
            if k < len - 1 {
                assert(buf@[k] == head[k]);
            }
        }
        assert(buf@ =~= expected);
    }
    buf
}

/// A decoded reply: its message type and payload.
pub struct Reply {
    pub msg_type: u8,
    pub payload: Vec<u8>,
}

/// Decode a received report. Returns nothing for anything that is not a
/// well-formed frame: a missing start byte, a length byte out of range, or a
/// checksum that does not match.
pub fn parse(bytes: &[u8]) -> (res: Option<Reply>)
    ensures
        match parsed(bytes@) {
            None => res is None,
            Some((t, p)) => res matches Some(r) && r.msg_type == t && r.payload@ == p,
        },
{
    if bytes.len() < 2 {
        return None;
    }
    let len = bytes[1] as usize;
    if bytes[0] != 0x02 || len < 5 || len > bytes.len() {
        return None;
    }
    if bytes[len - 1] != checksum_prefix(bytes, len - 1) {
        return None;
    }
    let mut clear: Vec<u8> = Vec::new();
    let mut i: usize = 3;
    while i < len - 1
        invariant
            5 <= len <= bytes@.len(),
            3 <= i <= len - 1,
            clear@ == bytes@.subrange(3, i as int),
        decreases len - 1 - i,
    {
        clear.push(bytes[i]);
        assert(bytes@.subrange(3, i + 1) =~= bytes@.subrange(3, i as int).push(bytes@[i as int]));
        i = i + 1;
    }
    if clear[0] != NAK {
        mask(bytes[2], clear.as_mut_slice());
    }
    let msg_type = clear[0];
    let mut payload: Vec<u8> = Vec::new();
    let mut k: usize = 1;
    while k < clear.len()
        invariant
            1 <= k <= clear@.len(),
            clear@.len() >= 1,
            payload@ == clear@.subrange(1, k as int),
        decreases clear@.len() - k,
    {
        payload.push(clear[k]);
        assert(clear@.subrange(1, k + 1) =~= clear@.subrange(1, k as int).push(clear@[k as int]));
        k = k + 1;
    }
    assert(payload@ =~= clear@.drop_first());
    Some(Reply { msg_type, payload })
}

/// A read answers with a long padded frame; the LED command answers with a
/// single zero byte. Telling them apart stops that ack wiping a fresh token.
pub fn is_read_reply(reply: &Reply) -> (res: bool)
    ensures
        res == is_read(reply.msg_type, reply.payload@),
{
    reply.msg_type == ACK && reply.payload.len() >= 16
}

/// Upper-case hex, two digits per byte.
pub fn hex(bytes: &[u8]) -> (res: String)
    ensures
        res@ == hex_text(bytes@),
{
    let chars = hex_chars(bytes);
    string_of(chars.as_slice())
}

/// The commands Net2 sends once before it starts polling, as address,
/// opcode and data: open the link, a Hitag2 read, the serial number, the
/// LEDs, and an empty command. Without them the reader refuses reads, which
/// is what a replug leaves it doing.
pub open spec fn init_commands() -> Seq<(u8, u8, Seq<u8>)> {
    seq![
        (0x08u8, 0x25u8, Seq::empty()),
        (0x88u8, OP_READ_HITAG2, Seq::empty()),
        (0xCDu8, 0x28u8, Seq::empty()),
        (ADDR, OP_LEDS, seq![LEDS_ARG]),
        (ADDR, 0x00u8, Seq::empty()),
    ]
}

/// The start-up commands, in the order they are sent.
pub fn init() -> (res: Vec<(u8, u8, Vec<u8>)>)
    ensures
        res@.len() == init_commands().len(),
        forall|i: int| 0 <= i < res@.len() ==> (#[trigger] res@[i]).0 == init_commands()[i].0
            && res@[i].1 == init_commands()[i].1 && res@[i].2@ == init_commands()[i].2,
{
    let mut leds: Vec<u8> = Vec::new();
    leds.push(LEDS_ARG);
    let mut out: Vec<(u8, u8, Vec<u8>)> = Vec::new();
    out.push((0x08, 0x25, Vec::new()));
    out.push((0x88, OP_READ_HITAG2, Vec::new()));
    out.push((0xCD, 0x28, Vec::new()));
    out.push((ADDR, OP_LEDS, leds));
    out.push((ADDR, 0x00, Vec::new()));
    assert(out@[3].2@ =~= seq![LEDS_ARG]);
    out
}

/// The reports that start the reader, framed in the order they are sent.
pub fn init_frames() -> (res: Vec<[u8; REPORT_BYTES]>)
    ensures
        res@.len() == init_commands().len(),
        forall|i: int| 0 <= i < res@.len() ==> (#[trigger] res@[i])@
            == frame_bytes(init_commands()[i].0, init_commands()[i].1, init_commands()[i].2),
{
    let commands = init();
    let mut out: Vec<[u8; REPORT_BYTES]> = Vec::new();
    let mut k: usize = 0;
    while k < commands.len()
        invariant
            k <= commands@.len() == init_commands().len(),
            forall|i: int| 0 <= i < commands@.len() ==> (#[trigger] commands@[i]).0 == init_commands()[i].0
                && commands@[i].1 == init_commands()[i].1 && commands@[i].2@ == init_commands()[i].2,
            out@.len() == k,
            forall|i: int| 0 <= i < k ==> (#[trigger] out@[i])@
                == frame_bytes(init_commands()[i].0, init_commands()[i].1, init_commands()[i].2),
        decreases commands@.len() - k,
    {
        let (addr, opcode, data) = (commands[k].0, commands[k].1, &commands[k].2);
        assert(data@.len() <= 1);
        out.push(frame(addr, opcode, data.as_slice()));
        k = k + 1;
    }
    out
}

} // verus!
