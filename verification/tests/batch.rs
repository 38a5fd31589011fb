use tusk::batch::{same_number, Batch, Format};
use tusk::net2::User;
use tusk::token::{Read, Token};
use tusk::batch::{download_name, save_step, SaveOutcome, SaveStep};
use tusk::net2::failure;

#[test]
fn guided_assignment_preserves_csv_and_requires_new_cards() {
    let input = "\u{feff}Surname,First name,Card Number,Notes\r\nDoe,John,,\"Comma, quote \"\" and\nnewline\"\r\nDawkins,Jane,,,\r\nKept,Student,0034935098,unchanged\r\n";
    let mut batch = Batch::parse(input.as_bytes(), false, Format::Decimal).unwrap();
    let card = Token {
        read: Read::Mifare,
        hex: "5B7D4039".into(),
        number: 34935097,
    };
    batch.resume(Some(&card));
    batch.observe(Some(&card)); // A card present before Start is not assigned.
    assert_eq!(batch.assigned_count(), 0);
    batch.observe(None);
    batch.observe(Some(&card));
    for _ in 0..20 {
        batch.observe(Some(&card));
    }
    assert_eq!(batch.assigned_count(), 1);
    assert_eq!(batch.name(batch.current().unwrap()), "Jane Dawkins");
    batch.observe(None);
    batch.observe(Some(&card)); // A duplicate after lifting it is still refused.
    assert_eq!(batch.assigned_count(), 1);
    assert!(batch.notice().contains("already belongs to John Doe"));
    let mut next = card.clone();
    next.hex = "5B7D403A".into();
    next.number += 1;
    batch.observe(Some(&next)); // Decimal collision with a preserved CSV number.
    assert!(batch.notice().contains("already belongs to Student Kept"));
    next.hex = "5B7D403B".into();
    next.number += 1;
    batch.observe(Some(&next));
    assert!(batch.current().is_none());
    let exported = batch.export().unwrap();
    let reread = Batch::parse(&exported, false, Format::Decimal).unwrap();
    assert!(exported.starts_with(b"\xef\xbb\xbf"));
    assert_eq!(reread.rows()[0].fields()[3], "Comma, quote \" and\nnewline");
    assert_eq!(reread.rows()[1].fields().len(), 5); // Sample's trailing empty field.
    assert_eq!(reread.value(0), "34935097");
    assert_eq!(reread.value(2), "0034935098");
    batch.undo();
    assert!(!batch.running());
    assert_eq!(batch.value(1), "");
    batch.skip();
    assert_eq!(batch.row_status(1), "Skipped");
    batch.undo();
    batch.set_format(Format::Hex);
    assert_eq!(batch.value(0), "5B7D4039");
    assert!(
        Batch::parse(
            b"Surname,First name,Card Number\nSmith,John,12345678,\n",
            true,
            Format::Decimal
        )
        .unwrap()
        .current()
        .is_some()
    );
    for invalid in [
        "First name,Card Number\nJohn,1",
        "Surname,First name,Card Number\nDoe,John",
        "Surname,First name,Card Number\nDoe,John,1,extra",
        "Surname,First name,Card Number\n,,",
        "Surname,First name,Card Number",
    ] {
        assert!(Batch::parse(invalid.as_bytes(), false, Format::Decimal).is_err());
    }
    assert!(Batch::parse(&[0xff], false, Format::Decimal).is_err());
}

#[test]
fn direct_queue_counts_a_card_only_once_net2_accepts_it() {
    let user = |id, first: &str, last: &str| User {
        id,
        first: first.into(),
        middle: String::new(),
        last: last.into(),
        has_image: false,
    };
    let users = [
        user(8, "Jane", "Doe"),
        user(9, "", ""),
        user(12, "John", "Roe"),
    ];
    let mut batch = Batch::from_users(&users, false).unwrap();
    assert_eq!(batch.name(1), "(No name)");
    let mut card = Token {
        read: Read::Mifare,
        hex: "5B7D4039".into(),
        number: 34935097,
    };
    batch.resume(None);
    batch.observe(Some(&card));
    assert_eq!(
        batch.sending_to(),
        Some((8, "Jane Doe".into(), "34935097".into()))
    );
    assert_eq!(batch.assigned_count(), 0);
    batch.skip(); // Nothing moves while Net2 is answering.
    assert_eq!(batch.current(), Some(0));
    batch.refused("Jane already has a card.".into(), true, false, false);
    assert_eq!((batch.row_status(0), batch.current()), ("Kept", Some(1)));
    batch.observe(None);
    batch.observe(Some(&card));
    batch.saved();
    assert_eq!(batch.row_status(1), "Saved to Net2");
    assert!(!batch.can_undo() && !batch.dirty());
    card.hex = "5B7D403A".into();
    card.number += 1;
    batch.observe(Some(&card));
    batch.refused("No answer.".into(), false, true, true);
    assert_eq!(batch.row_status(2), "Check in Net2");
    assert!(!batch.running() && batch.current().is_none());
    let exported = String::from_utf8(batch.export().unwrap()).unwrap();
    assert!(exported.starts_with(
        "User ID,First name,Surname,Card Number\r\n8,Jane,Doe,\r\n9,(No name),,34935097\r\n"
    ));
}

fn card(hex: &str, number: u32) -> Token {
    Token {
        read: Read::Mifare,
        hex: hex.into(),
        number,
    }
}

fn small_batch() -> Batch {
    Batch::parse(
        b"First name,Surname,Card Number\nAda,Lovelace,\nAlan,Turing,\nGrace,Hopper,\n",
        false,
        Format::Decimal,
    )
    .unwrap()
}

#[test]
fn undo_takes_back_a_skip_and_an_assignment() {
    let mut batch = small_batch();
    batch.resume(None);
    batch.skip();
    assert_eq!(batch.current(), Some(1));
    assert!(batch.can_undo());
    batch.undo();
    assert_eq!(batch.current(), Some(0));
    assert_eq!(batch.row_status(0), "Waiting");
    assert!(!batch.can_undo());
    batch.resume(None);
    batch.observe(Some(&card("01", 1)));
    assert_eq!(batch.value(0), "1");
    batch.undo();
    assert_eq!(batch.value(0), "");
    assert_eq!(batch.assigned_count(), 0);
    assert!(batch.notice().starts_with("Returned to Ada Lovelace."));
}

#[test]
fn a_held_card_counts_once_and_the_run_stops_when_everyone_has_one() {
    let mut batch = small_batch();
    batch.resume(None);
    assert!(batch.running());
    for (i, hex) in ["0A", "0B", "0C"].iter().enumerate() {
        batch.observe(Some(&card(hex, 10 + i as u32)));
        batch.observe(Some(&card(hex, 10 + i as u32)));
        batch.observe(None);
    }
    assert_eq!(batch.assigned_count(), 3);
    assert!(!batch.running());
    assert!(batch.dirty());
    assert_eq!(batch.row_status(2), "Assigned");
    assert_eq!(batch.notice(), "Assigned 12 to Grace Hopper. Remove this card before the next tap.");
}

#[test]
fn a_duplicate_names_the_row_it_belongs_to() {
    let mut batch = small_batch();
    batch.resume(None);
    batch.observe(Some(&card("0A", 10)));
    batch.observe(None);
    batch.observe(Some(&card("0A", 10)));
    assert_eq!(
        batch.notice(),
        "Card already belongs to Ada Lovelace (row 2). Use a different card."
    );
    assert_eq!(batch.assigned_count(), 1);
}

#[test]
fn nothing_happens_before_the_run_starts() {
    let mut batch = small_batch();
    batch.observe(Some(&card("0A", 10)));
    assert_eq!(batch.assigned_count(), 0);
    assert!(!batch.dirty());
    assert_eq!(batch.row_status(0), "Waiting");
}

#[test]
fn the_header_must_name_each_column_once() {
    let twice = Batch::parse(b"First name,first name ,Surname,Card Number\na,b,c,\n", false, Format::Decimal);
    assert_eq!(twice.err().unwrap(), "The CSV must contain exactly one First name column.");
    let none = Batch::parse(b"First name,Surname\na,b\n", false, Format::Decimal);
    assert_eq!(none.err().unwrap(), "The CSV must contain exactly one Card Number column.");
    let short = Batch::parse(b"First name,Surname,Card Number\na,b,,\nc\n", false, Format::Decimal);
    assert_eq!(short.err().unwrap(), "CSV row 3 does not match the header columns.");
    let nameless = Batch::parse(b"First name,Surname,Card Number\n ,  ,1\n", false, Format::Decimal);
    assert_eq!(nameless.err().unwrap(), "CSV row 2 has no first name or surname.");
    let empty = Batch::parse(b"First name,Surname,Card Number\n", false, Format::Decimal);
    assert_eq!(empty.err().unwrap(), "The CSV has headers but no people to assign cards to.");
    let binary = Batch::parse(&[0xff, 0xfe], false, Format::Decimal);
    assert_eq!(binary.err().unwrap(), "Save the spreadsheet as CSV UTF-8, then choose it again.");
}

#[test]
fn at_most_ten_thousand_people() {
    let mut csv = String::from("First name,Surname,Card Number\n");
    for i in 0..10_001 {
        csv.push_str(&format!("P{i},Q,\n"));
    }
    let refused = Batch::parse(csv.as_bytes(), false, Format::Decimal);
    assert_eq!(refused.err().unwrap(), "Please split this CSV into batches of at most 10,000 people.");
    let mut fits = String::from("First name,Surname,Card Number\n");
    for i in 0..10_000 {
        fits.push_str(&format!("P{i},Q,\n"));
    }
    assert_eq!(Batch::parse(fits.as_bytes(), false, Format::Decimal).unwrap().rows().len(), 10_000);
}

#[test]
fn people_with_a_card_are_kept_unless_replacing() {
    let csv = b"First name,Surname,Card Number\nA,B, 77 \nC,D,\n";
    let kept = Batch::parse(csv, false, Format::Decimal).unwrap();
    assert_eq!(kept.row_status(0), "Kept");
    assert_eq!(kept.current(), Some(1));
    let replaced = Batch::parse(csv, true, Format::Decimal).unwrap();
    assert_eq!(replaced.current(), Some(0));
}

#[test]
fn export_changes_only_the_card_number() {
    let mut batch = Batch::parse(b"Notes,Card Number,First name,Surname\r\n\"x, y\",,A,B\r\n", false, Format::Hex).unwrap();
    batch.resume(None);
    batch.observe(Some(&card("00ABCD", 43981)));
    let exported = String::from_utf8(batch.export().unwrap()).unwrap();
    assert_eq!(exported, "Notes,Card Number,First name,Surname\r\n\"x, y\",00ABCD,A,B\r\n");
}

#[test]
fn numbers_match_ignoring_padding_and_case() {
    assert!(same_number(" 0034935098 ", "34935098", Format::Decimal));
    assert!(!same_number("", "0", Format::Decimal));
    assert!(!same_number("   ", "0", Format::Hex));
    assert!(same_number("abc", "", Format::Decimal)); // neither is a number
    assert!(same_number("00ab", "AB", Format::Hex));
    assert!(!same_number("0ab", "AC", Format::Hex));
    assert!(same_number("+12", "12", Format::Decimal));
}

#[test]
fn a_refusal_that_keeps_the_person_waiting_leaves_them_next() {
    let users = [User {
        id: 5,
        first: "A".into(),
        middle: "M".into(),
        last: "B".into(),
        has_image: false,
    }];
    let mut batch = Batch::from_users(&users, false).unwrap();
    assert_eq!(batch.name(0), "A M B");
    batch.resume(None);
    batch.observe(Some(&card("01", 1)));
    assert_eq!(batch.notice(), "Saving 1 to A M B in Net2\u{2026}");
    batch.refused("Try again.".into(), false, false, false);
    assert_eq!(batch.current(), Some(0));
    assert!(batch.running());
    assert_eq!(batch.notice(), "Try again.");
    assert!(batch.sending_to().is_none());
}

#[test]
fn an_empty_user_list_is_refused() {
    assert_eq!(Batch::from_users(&[], false).err().unwrap(), "Net2 has no users there.");
}

#[test]
fn formats_write_the_number_or_the_hex() {
    let t = card("5B7D4039", 34935097);
    assert_eq!(Format::Decimal.value(&t), "34935097");
    assert_eq!(Format::Hex.value(&t), "5B7D4039");
    assert_eq!(Format::default(), Format::Decimal);
}

#[test]
fn the_page_shows_progress_and_what_comes_next() {
    let mut batch = Batch::parse(
        b"First name,Surname,Card Number\nA,B,5\nC,D,\nE,F,\n",
        false,
        Format::Decimal,
    )
    .unwrap();
    assert_eq!(batch.prompt(), "Next: C D");
    batch.resume(None);
    assert_eq!(batch.prompt(), "Please tap C D\u{2019}s card");
    batch.skip();
    batch.observe(Some(&card("0A", 10)));
    assert_eq!(batch.progress(), "3 people \u{b7} 1 assigned \u{b7} 1 kept \u{b7} 1 skipped");
    assert_eq!(batch.prompt(), "Queue complete \u{2014} review and download your CSV");
    batch.pause();
    assert!(!batch.running());
    assert_eq!(batch.notice(), "Paused. Press Start / resume when ready.");
    batch.downloaded();
    assert!(!batch.dirty());
    assert_eq!(download_name("class 7.csv"), "class 7-cards.csv");
    assert_eq!(download_name("a.b.csv"), "a.b-cards.csv");
    assert_eq!(download_name("people"), "people-cards.csv");
}

#[test]
fn net2_answers_settle_the_staged_card() {
    let users: Vec<User> = (1..=4)
        .map(|id| User {
            id,
            first: format!("P{id}"),
            middle: String::new(),
            last: String::new(),
            has_image: false,
        })
        .collect();
    let mut batch = Batch::from_users(&users, false).unwrap();
    batch.resume(None);
    batch.observe(Some(&card("01", 1)));
    batch.answer(2, SaveOutcome::Saved); // not the staged user
    assert!(batch.is_sending());
    batch.answer(1, SaveOutcome::HasCard("777".into()));
    assert_eq!(
        batch.notice(),
        "P1 already has card 777 in Net2, so they keep it. Lift the card and tap it again for the next person."
    );
    assert_eq!(batch.row_status(0), "Kept");
    batch.observe(None);
    batch.observe(Some(&card("01", 1)));
    batch.answer(2, SaveOutcome::Failed(failure("Net2 refused the request.".into(), false, false)));
    assert_eq!(batch.notice(), "Not saved for P2. Net2 refused the request.");
    assert_eq!(batch.current(), Some(1));
    assert!(batch.running());
    batch.observe(None);
    batch.observe(Some(&card("01", 1)));
    batch.answer(2, SaveOutcome::Failed(failure("Lost.".into(), true, true)));
    assert_eq!(batch.notice(), "P2: Lost. Paused.");
    assert_eq!(batch.row_status(1), "Check in Net2");
    assert!(!batch.running());
    batch.resume(None);
    batch.observe(Some(&card("02", 2)));
    batch.answer(3, SaveOutcome::Saved);
    assert_eq!(batch.row_status(2), "Saved to Net2");
    assert_eq!(batch.assigned_count(), 1);
}

#[test]
fn controls_follow_the_queue_and_the_reader() {
    let mut batch = small_batch();
    let idle = batch.controls(true);
    assert!(idle.start && !idle.pause && idle.skip && !idle.undo && idle.format);
    assert!(!batch.controls(false).start);
    assert_eq!(
        batch.shown_notice(false),
        "Connect the reader, then press Start / resume. Your progress is kept."
    );
    batch.resume(None);
    batch.observe(Some(&card("0A", 10)));
    let running = batch.controls(true);
    assert!(!running.start && running.pause && running.undo && !running.format);
    assert_eq!(batch.shown_notice(true), *batch.notice());
    let users = [User { id: 1, first: "A".into(), middle: String::new(), last: "B".into(), has_image: false }];
    let mut direct = Batch::from_users(&users, false).unwrap();
    assert!(!direct.controls(true).format);
    direct.resume(None);
    direct.observe(Some(&card("0A", 10)));
    let sending = direct.controls(true);
    assert!(!sending.pause && !sending.skip && !sending.undo);
}

#[test]
fn the_format_is_fixed_once_a_card_is_assigned_and_stop_only_stops() {
    let mut batch = small_batch();
    batch.choose_format(Format::Hex);
    assert_eq!(batch.format(), Format::Hex);
    batch.resume(None);
    batch.observe(Some(&card("0A", 10)));
    batch.choose_format(Format::Decimal);
    assert_eq!(batch.format(), Format::Hex);
    assert!(batch.running());
    let notice = batch.notice().clone();
    batch.stop();
    assert!(!batch.running());
    assert_eq!(*batch.notice(), notice);
    assert_eq!(batch.assigned_count(), 1);
    let users = [User { id: 1, first: "A".into(), middle: String::new(), last: "B".into(), has_image: false }];
    let mut direct = Batch::from_users(&users, false).unwrap();
    direct.choose_format(Format::Hex);
    assert_eq!(direct.format(), Format::Decimal);
}

#[test]
fn a_card_already_in_net2_is_kept_unless_replacing() {
    assert!(matches!(save_step(false, None), SaveStep::ReadCards));
    let listed = vec!["111".to_string(), "222".to_string()];
    assert!(matches!(save_step(false, Some(&listed)), SaveStep::Keep(ref c) if c == "111"));
    let none: Vec<String> = Vec::new();
    assert!(matches!(save_step(false, Some(&none)), SaveStep::Add));
    assert!(matches!(save_step(true, None), SaveStep::Add));
    assert!(matches!(save_step(true, Some(&listed)), SaveStep::Add));
}
