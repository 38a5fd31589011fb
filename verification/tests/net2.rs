use tusk::net2::{
    access_token, check_portrait, duplicate_flags, failure, fit, parse_origin, portrait_user_id,
    portrait_verdict, read_cards, read_departments, read_user, read_users, sign_in_failure,
    status_failure, token_types, User, DEFAULT_TOKEN_TYPE, MAX_IMAGE_BYTES, NOT_SIGNED_IN,
    UNEXPECTED, WRONG_OPERATOR,
};
use tusk::net2::{no_answer, sign_in_message, users_path, writes, UNCERTAIN_WRITE, UNREACHABLE};

/// Smallest header `imagesize` can read: a 1x1 PNG.
fn tiny_png() -> Vec<u8> {
    let mut bytes = b"\x89PNG\r\n\x1a\n\0\0\0\x0dIHDR".to_vec();
    bytes.extend_from_slice(&[0, 0, 0, 1, 0, 0, 0, 1, 8, 6, 0, 0, 0]);
    bytes
}

/// A JPEG start and frame header, which is all `imagesize` reads.
fn jpeg(width: u16, height: u16) -> Vec<u8> {
    let mut bytes = vec![0xFF, 0xD8, 0xFF, 0xC0, 0, 11, 8];
    bytes.extend_from_slice(&height.to_be_bytes());
    bytes.extend_from_slice(&width.to_be_bytes());
    bytes.extend_from_slice(&[1, 1, 0x11, 0]);
    bytes
}

fn tiny_jpeg() -> Vec<u8> {
    jpeg(1, 1)
}

#[test]
fn origins_are_bare_https() {
    assert_eq!(
        parse_origin(" https://Net2:8443/ ").as_deref(),
        Ok("https://net2:8443")
    );
    for bad in [
        "http://net2:8443",
        "https://net2:8443/api/v1",
        "https://user@net2",
        "https://",
        "net2:8443",
    ] {
        assert!(parse_origin(bad).is_err(), "{bad}");
    }
}

#[test]
fn errors_keep_details_but_not_tokens() {
    let rejected = status_failure(
        400,
        None,
        false,
        r#"{"message":"invalid_client","access_token":"private"}"#,
    );
    assert!(rejected.message.contains("invalid_client"));
    assert!(rejected.message.contains("ClientID"));
    assert!(!rejected.message.contains("private"));
    assert!(!rejected.halt && !rejected.uncertain);
    let expired = status_failure(401, None, false, "");
    assert!(expired.halt && expired.expired);
    let operator = sign_in_failure(status_failure(401, None, false, r#"{"error":"nope"}"#));
    assert!(operator.message.starts_with(WRONG_OPERATOR));
    assert!(operator.message.contains("nope"));
    assert_eq!(sign_in_failure(rejected.clone()), rejected);
    let limited = status_failure(429, Some("60"), false, "<html>proxy</html>");
    assert!(limited.message.contains("60 seconds") && !limited.message.contains("html"));
    assert!(status_failure(502, None, true, "").uncertain);
    assert!(!status_failure(502, None, false, "").uncertain);
}

#[test]
fn records_read_in_either_case() {
    let user = read_user(
        r#"{"id":7,"firstName":"Ada","middleName":" ","lastName":"Lovelace","hasImage":false}"#,
        7,
    )
    .unwrap();
    assert_eq!(user.name(), "Ada Lovelace");
    assert!(
        read_user(r#"{"Id":7,"FirstName":"Ada","HasImage":true}"#, 7)
            .unwrap()
            .has_image
    );
    assert!(read_user(r#"{"id":8,"hasImage":false}"#, 7).is_err());
    assert!(read_users(r#"[{"id":1,"hasImage":false},{"name":"?"}]"#).is_err());
    assert_eq!(read_users("[]"), Ok(vec![]));
    assert_eq!(
        read_departments(r#"[{"id":2,"name":"year 8"},{"id":1,"name":"Year 7"}]"#),
        vec![(1, "Year 7".into()), (2, "year 8".into())]
    );
    assert_eq!(
        read_cards(r#"[{"tokenValue":"111","isLost":true},{"tokenValue":"222","isLost":false}]"#),
        Ok(vec!["222".into()])
    );
}

#[test]
fn portraits_need_an_unambiguous_id_and_honest_contents() {
    assert_eq!(portrait_user_id("12345.JPG"), Ok(12345));
    assert_eq!(portrait_user_id("7.jpeg"), Ok(7));
    assert_eq!(portrait_user_id("8.webp"), Ok(8));
    for bad in [
        "00123.jpg",
        "0.jpg",
        "2147483648.jpg",
        "person.jpg",
        "12345",
        "12 345.jpg",
        "-1.jpg",
    ] {
        assert!(portrait_user_id(bad).is_err(), "{bad}");
    }
    let jpeg = tiny_jpeg();
    assert_eq!(check_portrait("1.jpg", &jpeg, jpeg.len()), Ok(()));
    assert_eq!(check_portrait("1.JPEG", &jpeg, jpeg.len()), Ok(()));
    // Net2 takes a PNG but shows nothing, so a PNG is always converted.
    let png = tiny_png();
    assert!(check_portrait("1.png", &png, png.len()).is_err());
    assert!(check_portrait("1.jpg", &png, png.len()).is_err());
    assert!(check_portrait("1.png", &jpeg, jpeg.len()).is_err());
    assert!(check_portrait("1.jpg", &jpeg, 0).is_err());
    assert!(check_portrait("1.jpg", &jpeg, MAX_IMAGE_BYTES + 1).is_err());
    assert_eq!(fit(1024, 1024), (1024, 1024));
    assert_eq!(fit(4000, 3000), (1200, 900));
    assert_eq!(fit(3000, 4001), (900, 1200));
    assert_eq!(fit(20000, 5), (1200, 1));
    assert_eq!(
        duplicate_flags(&[Some(1), Some(2), Some(1), None, None]),
        [true, false, true, false, false]
    );
}

#[test]
fn the_size_limits_are_net2s_to_the_byte_and_pixel() {
    let small = tiny_jpeg();
    assert_eq!(check_portrait("1.jpg", &small, 3_670_016), Ok(()));
    assert!(check_portrait("1.jpg", &small, 3_670_017).is_err());
    // 40 megapixels exactly is allowed; one row more is not
    let forty = jpeg(8000, 5000);
    assert_eq!(check_portrait("1.jpg", &forty, forty.len()), Ok(()));
    let over = jpeg(8000, 5001);
    assert!(check_portrait("1.jpg", &over, over.len()).is_err());
    // a JPEG start with no readable frame header
    assert!(check_portrait("1.jpg", &[0xFF, 0xD8, 0xFF], 3).is_err());
}

#[test]
fn each_refusal_says_what_net2_meant() {
    for (status, words) in [
        (400, "refused"),
        (403, "permission"),
        (404, "Not found"),
        (413, "larger"),
        (429, "Wait a minute"),
        (500, "HTTP 500"),
    ] {
        let problem = status_failure(status, None, false, "");
        assert!(
            problem.message.contains(words),
            "{status}: {}",
            problem.message
        );
        assert_eq!(problem.halt, matches!(status, 403 | 429), "{status}");
        assert!(!problem.expired, "{status}");
    }
    // A 4xx on a write was answered, so it did not half-happen.
    assert!(!status_failure(404, None, true, "").uncertain);
    let long = format!(r#"{{"message":"{}"}}"#, "x".repeat(2000));
    assert_eq!(
        status_failure(400, None, false, &long)
            .message
            .chars()
            .count(),
        600
    );
}

#[test]
fn only_a_usable_access_token_signs_in() {
    assert_eq!(
        access_token(r#"{"access_token":"abc.DEF-123_=","expires_in":3600}"#).as_deref(),
        Some("abc.DEF-123_=")
    );
    for bad in [
        r#"{"access_token":""}"#,
        r#"{"access_token":"two words"}"#,
        r#"{"access_token":"line\nbreak"}"#,
        r#"{"access_token":"café"}"#,
        r#"{"access_token":42}"#,
        r#"{"token":"abc"}"#,
        "<html>sign in</html>",
    ] {
        assert_eq!(access_token(bad), None, "{bad}");
    }
}

#[test]
fn a_middle_name_is_part_of_the_name_and_no_name_is_said_so() {
    let user = |first: &str, middle: &str, last: &str| User {
        id: 1,
        first: first.into(),
        middle: middle.into(),
        last: last.into(),
        has_image: false,
    };
    assert_eq!(user("Ada", "King", "Lovelace").name(), "Ada King Lovelace");
    assert_eq!(user("", "", "Lovelace").name(), "Lovelace");
    assert_eq!(user("", "", "").name(), "(No name)");
    assert_eq!(read_departments("not json"), vec![]);
    assert!(read_cards("{}").is_err());
}

#[test]
fn a_fitted_photo_is_never_enlarged_or_distorted() {
    for (width, height) in [(1, 1), (1200, 1), (1201, 1), (99_999, 1), (1, 99_999), (4000, 3000), (12345, 6789)] {
        let (w, h) = fit(width, height);
        assert!(w >= 1 && h >= 1 && w <= width && h <= height);
        assert_eq!(w.max(h), width.max(height).min(1200));
    }
}

#[test]
fn any_positive_id_names_its_own_file() {
    for id in [1, 9, 10, 12345, 2147483647] {
        for ext in ["jpg", "JPG", "jpeg", "png", "webp"] {
            assert_eq!(portrait_user_id(&format!("{id}.{ext}")), Ok(id));
            assert!(portrait_user_id(&format!("0{id}.{ext}")).is_err());
        }
    }
}

#[test]
fn an_accepted_origin_is_already_clean() {
    for typed in [" https://Net2:8443/ ", "https://A.b", "https://x//", "HTTPS://x", "https://a?b"] {
        if let Ok(origin) = parse_origin(typed) {
            let host = origin.strip_prefix("https://").unwrap();
            assert!(!host.is_empty() && !host.contains(['/', '@', '?', '#']));
            assert_eq!(host, host.to_ascii_lowercase());
            assert_eq!(parse_origin(&origin), Ok(origin.clone()));
        }
    }
}

#[test]
fn a_refusal_never_repeats_the_access_token() {
    for status in [400u16, 401, 403, 429, 500, 599] {
        let body = r#"{"access_token":"SECRETTOKEN123","refresh_token":"SECRETTOKEN123","error":"bad grant"}"#;
        let problem = status_failure(status, None, true, body);
        assert!(!problem.message.contains("SECRETTOKEN123"));
        assert!(problem.message.contains("Net2 says: bad grant."));
    }
}

#[test]
fn details_are_joined_in_key_order_and_trailing_dots_dropped() {
    let body = r#"{"Message":"Last...","error":"first","error_description":"  ","message":"second"}"#;
    let problem = status_failure(418, None, false, body);
    assert_eq!(
        problem.message,
        "Net2 returned HTTP 418. Net2 says: first; second; Last."
    );
}

#[test]
fn a_not_signed_in_message_is_replaced_only_for_expired_sessions() {
    let expired = status_failure(401, None, false, "");
    assert_eq!(expired.message, NOT_SIGNED_IN);
    assert_eq!(sign_in_failure(expired).message, WRONG_OPERATOR);
    let other = failure(NOT_SIGNED_IN.to_string(), false, true);
    assert_eq!(sign_in_failure(other.clone()), other);
}

#[test]
fn unreadable_replies_are_unexpected() {
    assert_eq!(read_user("not json", 1), Err(UNEXPECTED.to_string()));
    assert_eq!(read_user("[]", 1), Err(UNEXPECTED.to_string()));
    assert_eq!(read_user(r#"{"id":4294967296,"hasImage":false}"#, 0), Err(UNEXPECTED.to_string()));
    assert_eq!(read_users("{}"), Err(UNEXPECTED.to_string()));
    assert_eq!(read_cards("not json"), Err(UNEXPECTED.to_string()));
    let users = read_users(r#"[{"id":3,"hasImage":true,"lastName":" Roe "},{"ID":4,"id":5,"hasImage":false}]"#).unwrap();
    assert_eq!(users.len(), 2);
    assert_eq!(users[0].last, "Roe");
    assert_eq!(users[1].id, 5);
}

#[test]
fn departments_keep_their_order_among_equal_names_and_skip_bad_records() {
    let body = r#"[{"id":3,"name":"b"},{"id":1,"name":"B"},{"name":"no id"},7,{"id":2,"name":"a"},{"Id":9,"Name":"  C  "}]"#;
    assert_eq!(
        read_departments(body),
        vec![(2, "a".into()), (3, "b".into()), (1, "B".into()), (9, "C".into())]
    );
}

#[test]
fn cards_without_a_value_are_left_out() {
    assert_eq!(
        read_cards(r#"[{"TokenValue":" 9 "},{"tokenValue":""},{"isLost":false},5,{"tokenValue":"7","isLost":"yes"}]"#),
        Ok(vec!["9".into(), "7".into()])
    );
}

#[test]
fn a_portrait_verdict_follows_the_dimensions_read() {
    let jpeg = tiny_jpeg();
    assert_eq!(portrait_verdict("1.jpg", &jpeg, 10, Some((8000, 5000))), Ok(()));
    assert_eq!(
        portrait_verdict("1.jpg", &jpeg, 10, Some((8000, 5001))),
        Err("Images must be no larger than 40 megapixels.".to_string())
    );
    assert_eq!(
        portrait_verdict("1.jpg", &jpeg, 10, None),
        Err("The image size could not be read.".to_string())
    );
    assert_eq!(
        portrait_verdict("1.gif", &jpeg, 10, Some((1, 1))),
        Err("The file is not the JPG its name says.".to_string())
    );
    assert_eq!(
        portrait_verdict("1.jpg", &jpeg, 0, Some((1, 1))),
        Err("Images must be no larger than 3.5 MB.".to_string())
    );
}

#[test]
fn the_default_token_type_is_offered() {
    let types = token_types();
    assert_eq!(types.len(), 9);
    assert!(types.iter().any(|(value, _)| *value == DEFAULT_TOKEN_TYPE));
    assert_eq!(types[3], ("ProxIsoCardWithoutMagstripe", "Proximity ISO card no magstripe"));
}

#[test]
fn an_unreachable_server_is_explained_by_where_it_is() {
    assert_eq!(
        tusk::net2::unreachable("https://localhost:8443"),
        "Could not reach https://localhost:8443. Check that the Net2 services are running and LocalAPI is enabled."
    );
    assert!(tusk::net2::unreachable("https://127.0.0.1").ends_with("LocalAPI is enabled."));
    assert!(tusk::net2::unreachable("https://[::1]:1").ends_with("LocalAPI is enabled."));
    assert!(tusk::net2::unreachable("https://localhostile").contains("VPN"));
    assert!(tusk::net2::unreachable("https://net2:8443").starts_with("Could not reach https://net2:8443. Open that address"));
}

#[test]
fn a_request_without_an_answer_is_uncertain_only_for_writes() {
    assert!(writes(true, "POST") && writes(true, "PUT"));
    assert!(!writes(true, "GET") && !writes(false, "POST"));
    let write = no_answer(true);
    assert!(write.uncertain && write.halt && !write.expired);
    assert_eq!(write.message, UNCERTAIN_WRITE);
    let read = no_answer(false);
    assert!(!read.uncertain && read.halt);
    assert_eq!(read.message, UNREACHABLE);
}

#[test]
fn sign_in_messages_hide_what_was_typed() {
    assert_eq!(
        sign_in_message("bad password hunter2 for hunter2", "https://n", "hunter2", "ab"),
        "bad password [hidden] for [hidden]"
    );
    assert_eq!(sign_in_message("ab cd", "https://n", "ab", "cd"), "ab cd");
    assert_eq!(sign_in_message("é1é1", "https://n", "é1", ""), "[hidden][hidden]");
    assert_eq!(
        sign_in_message(UNREACHABLE, "https://net2", "xyz", "uvw"),
        tusk::net2::unreachable("https://net2")
    );
}

#[test]
fn users_come_from_a_department_or_everyone() {
    assert_eq!(users_path(""), "/users");
    assert_eq!(users_path("4"), "/departments/4/users");
}

#[test]
fn no_reply_or_file_header_makes_it_panic() {
    let texts = [
        "", "{", "[", "null", "[1,2,3]", "{\"id\":", "\u{0}", "[{\"id\":1e400}]", "{\"access_token\":null}",
        "[{\"id\":-2147483648,\"hasImage\":true}]", "[[[]]]", "\"text\"", "{\"Message\":{\"a\":1}}",
    ];
    for text in texts {
        let _ = (read_user(text, 1), read_users(text), read_cards(text), read_departments(text));
        let _ = (access_token(text), status_failure(500, Some(text), true, text));
    }
    let mut state = 0x9E3779B9u32;
    for _ in 0..500 {
        state ^= state << 13;
        state ^= state >> 17;
        state ^= state << 5;
        let bytes: Vec<u8> = (0..(state % 200)).map(|i| (state.rotate_left(i % 32) & 0xFF) as u8).collect();
        let _ = check_portrait("1.jpg", &bytes, bytes.len());
        let mut jpeg = vec![0xFF, 0xD8, 0xFF];
        jpeg.extend(&bytes);
        let _ = check_portrait("1.jpg", &jpeg, jpeg.len());
    }
    assert_eq!(read_users(r#"[{"id":-2147483648,"hasImage":true}]"#).unwrap()[0].id, i32::MIN);
}

#[test]
fn a_file_that_is_not_a_jpeg_is_refused_before_its_size_is_read() {
    // an HEIF-shaped header named as a JPG: only its name and start are looked at
    let mut heif = vec![0, 0, 0, 0x18];
    heif.extend_from_slice(b"ftypheic");
    heif.extend_from_slice(&[0, 0, 0, 0]);
    heif.extend_from_slice(b"mif1heic");
    heif.extend_from_slice(&[0xFF; 64]);
    assert_eq!(
        check_portrait("1.jpg", &heif, heif.len()),
        Err("The file is not the JPG its name says.".to_string())
    );
    assert_eq!(
        check_portrait("1.jpg", &[0xFF, 0xD8], 2),
        Err("The file is not the JPG its name says.".to_string())
    );
}

#[test]
fn departments_sort_by_the_keys_given_beside_them() {
    let ds = vec![(1, "b".to_string()), (2, "A".to_string()), (3, "a".to_string())];
    let keys = vec!["b".to_string(), "a".to_string(), "a".to_string()];
    let sorted = tusk::net2::sort_by_keys(&ds, &keys);
    // equal keys keep the order they came in
    assert_eq!(sorted, vec![(2, "A".to_string()), (3, "a".to_string()), (1, "b".to_string())]);
    // the keys decide, not the names
    let ds = vec![(1, "x".to_string()), (2, "y".to_string())];
    let keys = vec!["2".to_string(), "1".to_string()];
    assert_eq!(tusk::net2::sort_by_keys(&ds, &keys), vec![(2, "y".to_string()), (1, "x".to_string())]);
}

#[test]
fn a_form_body_keeps_the_fields_that_have_a_value() {
    let fields = vec![
        ("grant_type".to_string(), "password".to_string()),
        ("username".to_string(), "".to_string()),
        ("password".to_string(), "p%26w".to_string()),
        ("client_id".to_string(), "".to_string()),
    ];
    assert_eq!(tusk::net2::form_body(&fields), "grant_type=password&password=p%26w");
    let empty = vec![("username".to_string(), "".to_string())];
    assert_eq!(tusk::net2::form_body(&empty), "");
}
