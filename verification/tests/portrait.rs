use tusk::net2::{failure, User, NAME_RULE, UNEXPECTED};
use tusk::portrait::{
    chosen_notice, forget_matches, mark_duplicates, problems, ready_count, upload_check,
    upload_label, upload_notice, Portrait,
};

fn jpeg() -> Vec<u8> {
    vec![0xFF, 0xD8, 0xFF, 0xC0, 0, 11, 8, 0, 1, 0, 1, 1, 1, 0x11, 0]
}

fn user(id: i32, has_image: bool) -> User {
    User {
        id,
        first: "Ada".into(),
        middle: String::new(),
        last: "Lovelace".into(),
        has_image,
    }
}

#[test]
fn a_file_name_gives_the_user_id_or_the_rule() {
    let good = Portrait::new("12.jpg".into());
    assert_eq!(good.id, Some(12));
    assert_eq!(good.status, "Not checked");
    assert!(good.pending());
    let bad = Portrait::new("012.jpg".into());
    assert_eq!(bad.id, None);
    assert!(bad.problem);
    assert_eq!(bad.status, NAME_RULE);
}

#[test]
fn files_are_checked_before_they_are_offered() {
    let header = jpeg();
    let mut ok = Portrait::new("1.jpg".into());
    assert!(ok.check_file(Some(&header), header.len()));
    assert!(!ok.problem);
    let mut unreadable = Portrait::new("2.jpg".into());
    assert!(!unreadable.check_file(None, 10));
    assert_eq!(unreadable.status, "The image could not be read.");
    let mut png = Portrait::new("3.png".into());
    assert!(!png.check_file(Some(&header), header.len()));
    assert_eq!(png.status, "The file is not the JPG its name says.");
    let mut nameless = Portrait::new("x.jpg".into());
    assert!(!nameless.check_file(Some(&header), header.len()));
    assert_eq!(nameless.status, NAME_RULE);
}

#[test]
fn duplicates_are_marked_and_counted() {
    let mut rows: Vec<Portrait> = ["1.jpg", "2.jpg", "1.jpeg", "x.jpg"]
        .iter()
        .map(|name| Portrait::new(name.to_string()))
        .collect();
    mark_duplicates(&mut rows);
    assert!(rows[0].problem && rows[2].problem);
    assert_eq!(rows[0].status, "More than one file has this user ID.");
    assert!(!rows[1].problem);
    assert_eq!(rows[3].status, NAME_RULE);
    assert_eq!(problems(&rows), 3);
    assert_eq!(
        chosen_notice(&rows),
        "4 chosen, 3 with problems. Check matches before uploading."
    );
}

#[test]
fn a_review_matches_the_user_or_says_why_not() {
    let mut row = Portrait::new("7.jpg".into());
    row.reviewed(Ok(r#"{"id":7,"firstName":"Ada","hasImage":true}"#.into()));
    assert_eq!(row.status, "Has a portrait: tick Replace to overwrite it");
    assert!(row.ready(true) && !row.ready(false));
    row.reviewed(Ok(r#"{"id":8,"hasImage":false}"#.into()));
    assert_eq!(row.status, UNEXPECTED);
    assert!(row.user.is_some());
    row.reviewed(Err(failure("Not found in Net2.".into(), false, false)));
    assert!(row.user.is_none());
    assert_eq!(row.status, "Not found in Net2.");
    row.reviewed(Ok(r#"{"id":7,"hasImage":false}"#.into()));
    assert_eq!(row.status, "Ready");
    assert!(row.ready(false));
}

#[test]
fn an_upload_goes_ahead_only_for_the_person_checked() {
    let body = r#"{"id":7,"firstName":"Ada","lastName":"Lovelace","hasImage":false}"#;
    assert!(upload_check(body, 7, "Ada Lovelace", false).is_ok());
    let changed = upload_check(body, 7, "Ada King", false).unwrap_err();
    assert_eq!(
        changed.message,
        "This person changed in Net2 since the check. Check matches again."
    );
    let pictured = r#"{"id":7,"firstName":"Ada","lastName":"Lovelace","hasImage":true}"#;
    assert!(upload_check(pictured, 7, "Ada Lovelace", false).is_err());
    assert!(upload_check(pictured, 7, "Ada Lovelace", true).is_ok());
    assert_eq!(upload_check("nope", 7, "Ada Lovelace", true).unwrap_err().message, UNEXPECTED);
}

#[test]
fn an_uncertain_upload_stops_the_run_and_is_not_retried() {
    let mut row = Portrait::new("7.jpg".into());
    row.user = Some(user(7, false));
    assert!(!row.uploaded(Ok(())));
    assert!(row.done && !row.pending());
    assert_eq!(row.status, "Uploaded");
    let mut other = Portrait::new("8.jpg".into());
    other.user = Some(user(8, false));
    assert!(other.uploaded(Err(failure("lost".into(), true, false))));
    assert!(other.unsure && other.user.is_none() && !other.pending());
    let mut refused = Portrait::new("9.jpg".into());
    assert!(!refused.uploaded(Err(failure("no".into(), false, false))));
    assert!(refused.pending());
}

#[test]
fn forgetting_matches_keeps_finished_entries() {
    let mut rows = vec![Portrait::new("1.jpg".into()), Portrait::new("2.jpg".into())];
    rows[0].user = Some(user(1, false));
    rows[0].status = "Ready".into();
    rows[1].user = Some(user(2, false));
    rows[1].uploaded(Ok(()));
    rows[1].user = Some(user(2, false));
    forget_matches(&mut rows);
    assert!(rows[0].user.is_none());
    assert_eq!(rows[0].status, "Not checked");
    assert!(rows[1].user.is_some());
    assert_eq!(rows[1].status, "Uploaded");
}

#[test]
fn labels_and_notices_count_portraits() {
    assert_eq!(upload_label(0), "Upload portraits");
    assert_eq!(upload_label(1), "Upload 1 portrait");
    assert_eq!(upload_label(12), "Upload 12 portraits");
    assert_eq!(
        upload_notice(true, 2, 5),
        "Stopped. 2 of 5 uploaded. Check each result before trying again."
    );
    assert_eq!(
        upload_notice(false, 5, 5),
        "Done. 5 of 5 uploaded. Check each result before trying again."
    );
    let mut rows = vec![Portrait::new("1.jpg".into()), Portrait::new("2.jpg".into())];
    rows[0].user = Some(user(1, true));
    rows[1].user = Some(user(2, false));
    assert_eq!(ready_count(&rows, false), 1);
    assert_eq!(ready_count(&rows, true), 2);
}
