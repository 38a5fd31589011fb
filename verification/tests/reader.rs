use tusk::protocol::{frame, ACK, ADDR};
use tusk::reader::{claim_reader, missed, next_read, on_report, CardChange, MAX_MISSES};
use tusk::token::Read;

fn read_reply(uid: &[u8]) -> Vec<u8> {
    let mut payload = [0u8; 32];
    payload[..uid.len()].copy_from_slice(uid);
    frame(ADDR, ACK, &payload).to_vec()
}

#[test]
fn a_read_that_finds_a_card_shows_it() {
    let report = on_report(&read_reply(&[0x5B, 0x7D, 0x40, 0x39]), Read::Mifare, None);
    assert!(report.answered);
    match report.card {
        CardChange::Show(t) => {
            assert_eq!(t.hex, "5B7D4039");
            assert_eq!(t.number, 34935097);
            assert_eq!(t.read, Read::Mifare);
        }
        other => panic!("expected a card, got {other:?}"),
    }
}

#[test]
fn an_empty_read_clears_only_a_card_the_same_read_found() {
    let empty = read_reply(&[]);
    assert_eq!(on_report(&empty, Read::Mifare, Some(Read::Mifare)).card, CardChange::Clear);
    assert_eq!(on_report(&empty, Read::Mifare, Some(Read::Hitag2)).card, CardChange::Keep);
    assert_eq!(on_report(&empty, Read::Hitag2, None).card, CardChange::Keep);
    assert!(on_report(&empty, Read::Hitag2, None).answered);
}

#[test]
fn the_led_ack_and_noise_answer_nothing() {
    let ack = frame(ADDR, ACK, &[0x00]);
    let report = on_report(&ack, Read::Mifare, Some(Read::Mifare));
    assert!(!report.answered);
    assert_eq!(report.card, CardChange::Keep);
    let noise = on_report(&[0x01, 0x02, 0x03], Read::Mifare, Some(Read::Mifare));
    assert!(!noise.answered);
    assert_eq!(noise.card, CardChange::Keep);
}

#[test]
fn reads_take_turns_and_four_misses_stop_the_display() {
    assert_eq!(next_read(Read::Mifare), Read::Hitag2);
    assert_eq!(next_read(Read::Hitag2), Read::Mifare);
    let mut misses = 0;
    let mut stopped_at = None;
    for poll in 1..=6 {
        let (next, stop) = missed(misses);
        misses = next;
        if stop {
            assert!(stopped_at.is_none());
            stopped_at = Some(poll);
        }
    }
    assert_eq!(stopped_at, Some(MAX_MISSES));
}

#[test]
fn only_one_connection_claims_the_reader() {
    assert_eq!(claim_reader(false, false, 4), Some(5));
    assert_eq!(claim_reader(true, false, 4), None);
    assert_eq!(claim_reader(false, true, 4), None);
    assert_eq!(claim_reader(false, false, u32::MAX), Some(0));
}
