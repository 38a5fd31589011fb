use tusk::protocol::{frame, hex, init, is_read_reply, parse, ACK, ADDR};
use tusk::token::{
    card_type_digits, digit_code, hitag2_number, net2_number, token, user_card_digits, Read,
};

const REAL_TOKEN_READ: [u8; 37] = [
    0x02, 0x25, 0xA5, 0x71, 0x35, 0x09, 0x05, 0x55, 0x65, 0x70, 0x68, 0x61, 0x6E, 0x74, 0x45, 0x6C,
    0x65, 0x70, 0x68, 0x61, 0x6E, 0x74, 0x45, 0x6C, 0x65, 0x70, 0x68, 0x61, 0x6E, 0x74, 0x45, 0x6C,
    0x65, 0x70, 0x68, 0x61, 0xF9,
];

#[test]
fn decodes_the_token_from_a_real_read() {
    let reply = parse(&REAL_TOKEN_READ).expect("a captured frame must parse");
    assert_eq!(reply.msg_type, ACK);
    let t = token(Read::Mifare, &reply).expect("a card was on the reader");
    assert_eq!(t.hex, "5B7D4039");
    // what Net2 itself showed for this card
    assert_eq!(t.number, 34935097);
}

#[test]
fn decodes_a_hitag2_fob_in_the_net2_layout() {
    let codes: Vec<u64> = [1, 2, 3, 4, 5, 6, 7, 8, 15]
        .map(|d| u64::from(digit_code(d)))
        .to_vec();
    let page4 = codes[..6].iter().fold(0, |acc, c| acc << 5 | c) << 2;
    let page5 = codes[6..].iter().fold(0, |acc, c| acc << 5 | c) << 17;
    let mut payload = [0u8; 32];
    payload[8..12].copy_from_slice(&(page4 as u32).to_be_bytes());
    payload[12..16].copy_from_slice(&(page5 as u32).to_be_bytes());
    payload[20..24].copy_from_slice(&(0b0100u32 << 2).to_be_bytes());
    assert_eq!(hitag2_number(&payload), Some(12345678));
}

#[test]
fn keeps_a_uid_whole_when_it_ends_in_zero() {
    let seven_byte_uid = [0x04, 0x5B, 0x7D, 0x40, 0x39, 0x12, 0x00];
    let mut payload = [0u8; 32];
    payload[..7].copy_from_slice(&seven_byte_uid);
    let reply = parse(&frame(ADDR, ACK, &payload)).expect("must parse");
    assert_eq!(
        token(Read::Mifare, &reply).expect("a card").hex,
        "045B7D40391200"
    );
}

#[test]
fn keeps_a_seven_byte_uid_whole_when_it_ends_in_two_zeros() {
    let mut payload = [0u8; 32];
    payload[..5].copy_from_slice(&[0x04, 0x5B, 0x7D, 0x40, 0x39]);
    let reply = parse(&frame(ADDR, ACK, &payload)).expect("must parse");
    assert_eq!(
        token(Read::Mifare, &reply).expect("a card").hex,
        "045B7D40390000"
    );
}

#[test]
fn asks_with_the_opcodes_net2_uses() {
    assert_eq!(
        hex(&frame(ADDR, Read::Mifare.opcode(), &[])[..5]),
        "02058892DE"
    );
    assert_eq!(Read::Hitag2.opcode(), init()[1].1);
}

/// Pages 2 to 7 as TOKEN_R_DATA returns them, four bytes each.
fn pages(p: [u32; 6]) -> Vec<u8> {
    p.iter().flat_map(|x| x.to_be_bytes()).collect()
}

/// Put each digit's code at a (page, bit offset) of the newer layout.
fn place(p: &mut [u32; 6], at: &[(usize, usize)], digits: &[usize]) {
    for (&(page, off), &d) in at.iter().zip(digits) {
        p[page - 2] |= u32::from(digit_code(d)) << (27 - off);
    }
}

/// Raw 5-bit codes in the classic layout: six from the top of page 4,
/// the rest from the top of page 5. A 0 here is the magstripe padding.
fn net2_bits(codes: &[u8]) -> u64 {
    let starts = (0..6).map(|n| 5 * n).chain((0..).map(|n| 32 + 5 * n));
    codes
        .iter()
        .zip(starts)
        .fold(0, |bits, (c, at)| bits | u64::from(*c) << (59 - at))
}

fn codes(digits: &[usize]) -> Vec<u8> {
    digits.iter().map(|d| digit_code(*d)).collect()
}

#[test]
fn decodes_a_hitag2_user_card_in_the_newer_layout() {
    let mut p = [0u32; 6];
    p[5] |= 0b0001 << 2;
    place(&mut p, &card_type_digits(), &[0, 0, 1]);
    place(&mut p, &user_card_digits(), &[8, 7, 6, 5, 4, 3, 2, 9]);
    assert_eq!(hitag2_number(&pages(p)), Some(87654329));
}

#[test]
fn decodes_the_45_bit_layout_when_the_card_type_is_not_a_user_card() {
    let bits = net2_bits(&codes(&[1, 2, 3, 4, 5, 6, 7, 8]));
    let mut p = [0, 0, (bits >> 32) as u32, bits as u32, 0, 0b0001 << 2];
    place(&mut p, &card_type_digits(), &[0, 0, 2]);
    assert_eq!(hitag2_number(&pages(p)), Some(12345678));
}

#[test]
fn a_number_can_end_in_zero_padding() {
    assert_eq!(net2_number(net2_bits(&codes(&[1, 2])), 64), Some(12));
}

#[test]
fn rejects_anything_after_the_zero_padding() {
    let mut junk = codes(&[1, 2]);
    junk.extend([0, digit_code(2)]);
    assert_eq!(net2_number(net2_bits(&junk), 64), None);
}

#[test]
fn ignores_bits_past_the_45_bit_length() {
    let bits = net2_bits(&codes(&[1, 2])) | 1 << (63 - 50);
    assert_eq!(net2_number(bits, 45), Some(12));
    // the same bit inside a 64-bit number is junk after the padding
    assert_eq!(net2_number(bits, 64), None);
}

#[test]
fn stops_reading_digits_at_the_45_bit_length() {
    let bits = net2_bits(&codes(&[1, 2, 3, 4, 5, 6, 7, 8, 9]));
    assert_eq!(net2_number(bits, 45), Some(12345678));
}

#[test]
fn reads_leading_zero_padding_as_zeros() {
    let mut padded = vec![0, 0];
    padded.extend(codes(&[1, 2, 3, 4, 15]));
    assert_eq!(net2_number(net2_bits(&padded), 64), Some(1234));
}

#[test]
fn keeps_the_last_eight_digits_of_a_longer_number() {
    let bits = net2_bits(&codes(&[1, 2, 3, 4, 5, 6, 7, 8, 9, 1, 2, 3]));
    assert_eq!(net2_number(bits, 64), Some(56789123));
}

#[test]
fn an_empty_read_means_no_card_rather_than_an_empty_token() {
    let empty = parse(&frame(ADDR, ACK, &[0u8; 32])).expect("must parse");
    assert!(is_read_reply(&empty));
    assert!(token(Read::Mifare, &empty).is_none());
    assert!(token(Read::Hitag2, &empty).is_none());
}

#[test]
fn a_mifare_number_is_the_first_four_bytes_in_eight_digits() {
    // 0xFFFFFFFF is 4294967295; Net2 shows its last eight digits
    let mut payload = [0u8; 32];
    payload[..4].copy_from_slice(&[0xFF, 0xFF, 0xFF, 0xFF]);
    let reply = parse(&frame(ADDR, ACK, &payload)).expect("must parse");
    let t = token(Read::Mifare, &reply).expect("a card");
    assert_eq!(t.number, 94967295);
    assert_eq!(t.hex, "FFFFFFFF");
    assert_eq!(t.read, Read::Mifare);
}

#[test]
fn a_short_ack_is_no_token() {
    let reply = parse(&frame(ADDR, ACK, &[0x00])).expect("must parse");
    assert!(token(Read::Mifare, &reply).is_none());
    assert!(token(Read::Hitag2, &reply).is_none());
}

#[test]
fn any_read_payload_decodes_to_an_eight_digit_number_or_nothing() {
    for seed in 0..2000u32 {
        let len = 16 + seed % 20;
        let payload: Vec<u8> = (0..len)
            .map(|i| (seed.wrapping_mul(2654435761).rotate_left(i) >> 3) as u8)
            .collect();
        let reply = parse(&frame(ADDR, ACK, &payload)).expect("must parse");
        for read in [Read::Mifare, Read::Hitag2] {
            if let Some(t) = token(read, &reply) {
                assert!(t.number < 100_000_000);
                assert!(read == Read::Mifare || t.number > 0);
            }
        }
    }
}

#[test]
fn a_user_card_number_of_more_than_eight_digits_is_no_number() {
    // digit codes for 10, then seven more digits: nine characters in all
    let mut p = [0u32; 6];
    p[5] |= 0b0001 << 2;
    place(&mut p, &card_type_digits(), &[0, 0, 1]);
    place(&mut p, &user_card_digits(), &[10, 7, 6, 5, 4, 3, 2, 9]);
    assert_eq!(hitag2_number(&pages(p)), None);
    // the same card with eight single digits is read
    let mut q = [0u32; 6];
    q[5] |= 0b0001 << 2;
    place(&mut q, &card_type_digits(), &[0, 0, 1]);
    place(&mut q, &user_card_digits(), &[1, 7, 6, 5, 4, 3, 2, 9]);
    assert_eq!(hitag2_number(&pages(q)), Some(17654329));
}

#[test]
fn the_digit_table_round_trips() {
    let all: Vec<u8> = (0..16).map(digit_code).collect();
    let mut sorted = all.clone();
    sorted.sort();
    sorted.dedup();
    assert_eq!(sorted.len(), 16);
    assert_eq!(card_type_digits().len(), 3);
    assert_eq!(user_card_digits().len(), 8);
}

#[test]
fn no_reply_makes_decoding_panic() {
    let mut state = 0x2545F491u32;
    for _ in 0..5000 {
        state ^= state << 13;
        state ^= state >> 17;
        state ^= state << 5;
        let len = (state % 42) as usize;
        let bytes: Vec<u8> = (0..len).map(|i| (state.rotate_left(i as u32 * 7) & 0xFF) as u8).collect();
        if let Some(reply) = parse(&bytes) {
            for read in [Read::Mifare, Read::Hitag2] {
                if let Some(t) = token(read, &reply) {
                    assert!(t.number < 100_000_000);
                }
            }
        }
    }
}
