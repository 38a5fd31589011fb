use tusk::protocol::{
    checksum, frame, hex, init, init_frames, is_read_reply, mask, parse, ACK, ADDR, LEDS_ARG,
    MAX_PAYLOAD, NAK, OP_LEDS, OP_READ_HITAG2, OP_READ_MIFARE,
};

/// A Mifare read with card 5B7D4039 on the reader, as captured from the device.
const REAL_TOKEN_READ: [u8; 37] = [
    0x02, 0x25, 0xA5, 0x71, 0x35, 0x09, 0x05, 0x55, 0x65, 0x70, 0x68, 0x61, 0x6E, 0x74, 0x45, 0x6C,
    0x65, 0x70, 0x68, 0x61, 0x6E, 0x74, 0x45, 0x6C, 0x65, 0x70, 0x68, 0x61, 0x6E, 0x74, 0x45, 0x6C,
    0x65, 0x70, 0x68, 0x61, 0xF9,
];

const REAL_VERSION: [u8; 18] = [
    0x02, 0x12, 0x88, 0x55, 0x39, 0x36, 0x32, 0x48, 0x31, 0x2B, 0x27, 0x65, 0x3A, 0x54, 0x5E, 0x59,
    0x55, 0xA3,
];
const REAL_PLAINTEXT_ACK: [u8; 6] = [0x02, 0x06, 0x00, 0x10, 0x00, 0xE7];
const REAL_NAK: [u8; 25] = [
    0x02, 0x19, 0x88, 0x13, 0x02, 0x05, 0x88, 0x92, 0xDE, 0x00, 0x00, 0x00, 0x00, 0x00, 0x00, 0x00,
    0x00, 0x00, 0x00, 0x00, 0x00, 0x00, 0x00, 0x00, 0x4A,
];

#[test]
fn decodes_a_real_version_string() {
    let reply = parse(&REAL_VERSION).expect("a captured frame must parse");
    assert_eq!(String::from_utf8_lossy(&reply.payload), "USB PES V1.14");
}

#[test]
fn reads_a_plaintext_reply_without_unmasking_it() {
    // address 0 has the high bit clear, so this frame is not obfuscated
    let reply = parse(&REAL_PLAINTEXT_ACK).expect("must parse");
    assert_eq!(reply.msg_type, ACK);
}

#[test]
fn reads_a_nak_even_though_the_address_asks_for_obfuscation() {
    let reply = parse(&REAL_NAK).expect("must parse");
    assert_eq!(reply.msg_type, NAK);
}

#[test]
fn builds_the_two_frames_net2_sends_for_a_read() {
    assert_eq!(hex(&frame(ADDR, OP_LEDS, &[LEDS_ARG])[..6]), "0206886166A8");
    assert_eq!(hex(&frame(ADDR, OP_READ_MIFARE, &[])[..5]), "02058892DE");
}

#[test]
fn pads_with_zeros_and_ends_with_eot() {
    // the padding after the checksum is sent unmasked, as Net2 sends it
    let built = frame(ADDR, OP_LEDS, &[LEDS_ARG]);
    assert!(built[6..40].iter().all(|b| *b == 0), "{}", hex(&built));
    assert_eq!(built[40], 0x04);
}

#[test]
fn rejects_a_frame_without_the_start_byte() {
    // a valid checksum, so only the missing STX can reject it
    let mut bytes = [0x03, 0x06, 0x00, ACK, 0x00, 0x00];
    bytes[5] = checksum(&bytes[..5]);
    assert!(parse(&bytes).is_none());
}

#[test]
fn rejects_a_frame_shorter_than_its_length_byte() {
    assert!(parse(&REAL_PLAINTEXT_ACK[..5]).is_none());
}

#[test]
fn rejects_a_frame_whose_checksum_does_not_match() {
    let mut corrupted = REAL_TOKEN_READ;
    corrupted[6] ^= 0xFF;
    assert!(parse(&corrupted).is_none());
}

#[test]
fn tells_a_read_reply_apart_from_the_prime_ack() {
    let read = parse(&REAL_TOKEN_READ).expect("must parse");
    let prime_ack = parse(&frame(ADDR, ACK, &[0x00])).expect("must parse");
    assert!(is_read_reply(&read));
    assert!(!is_read_reply(&prime_ack));
}

#[test]
fn a_built_frame_parses_back_to_what_went_in() {
    let opcodes = [ACK, NAK, 0x00, 0x14, 0x24, 0x25, 0x28, 0x64, OP_READ_MIFARE];
    for addr in 0..=255u8 {
        for &opcode in &opcodes {
            for len in [0usize, 1, 7, 16, MAX_PAYLOAD] {
                let payload: Vec<u8> = (0..len).map(|i| (i as u8).wrapping_mul(37) ^ addr).collect();
                let reply = parse(&frame(addr, opcode, &payload)).expect("must parse");
                assert_eq!(reply.msg_type, opcode);
                assert_eq!(reply.payload, payload);
            }
        }
    }
}

#[test]
fn masking_twice_returns_the_original() {
    for addr in 0..=255u8 {
        let body: Vec<u8> = (0..40u8).map(|i| i.wrapping_mul(91)).collect();
        let mut scrambled = body.clone();
        mask(addr, &mut scrambled);
        mask(addr, &mut scrambled);
        assert_eq!(scrambled, body);
    }
}

#[test]
fn masking_changes_only_obfuscated_addresses() {
    let body = vec![0u8; 8];
    let mut plain = body.clone();
    mask(0x08, &mut plain);
    assert_eq!(plain, body);
    let mut masked = body.clone();
    mask(0x88, &mut masked);
    // zero padding XORs to the key itself
    assert_eq!(masked, b"Elephant".to_vec());
}

#[test]
fn the_checksum_is_the_complement_of_the_byte_sum() {
    assert_eq!(checksum(&[]), 0xFF);
    assert_eq!(checksum(&[0x02, 0x06, 0x00, 0x10, 0x00]), 0xE7);
    assert_eq!(checksum(&[0xFF, 0x01]), 0xFF);
}

#[test]
fn hex_is_upper_case_two_digits_a_byte() {
    assert_eq!(hex(&[]), "");
    assert_eq!(hex(&[0x00, 0x0A, 0xFF]), "000AFF");
}

#[test]
fn the_start_up_sequence_is_what_net2_sends() {
    let commands = init();
    assert_eq!(commands.len(), 5);
    assert_eq!(commands[0], (0x08, 0x25, vec![]));
    assert_eq!(commands[1], (0x88, OP_READ_HITAG2, vec![]));
    assert_eq!(commands[3], (ADDR, OP_LEDS, vec![LEDS_ARG]));
    let frames = init_frames();
    assert_eq!(frames.len(), 5);
    assert_eq!(frames[3], frame(ADDR, OP_LEDS, &[LEDS_ARG]));
    assert_eq!(hex(&frames[3][..6]), "0206886166A8");
}
