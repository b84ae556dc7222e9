use image_processor::boundary::{params_text, validate, Rejection, STATUS_OK};
use image_processor::error::AppError;
use image_processor::params::{parse_object, Document, Member, Setting};

#[test]
fn validate_gives_buffer_length() {
    assert_eq!(validate(4, 4, true, true), Ok(64));
    assert_eq!(validate(1, 1, true, true), Ok(4));
    assert_eq!(validate(1920, 1080, true, true), Ok(8_294_400));
    assert_eq!(validate(0x4000_0000, 0x4000_0000, true, true), Ok(1usize << 62));
    assert_eq!(validate(u32::MAX, 1, true, true), Ok(17_179_869_180));
}

#[test]
fn validate_checks_in_order() {
    assert_eq!(validate(0, 0, false, true), Err(Rejection::MissingInput));
    assert_eq!(validate(4, 4, true, false), Err(Rejection::MissingInput));
    assert_eq!(validate(u32::MAX, u32::MAX, false, false), Err(Rejection::MissingInput));
    assert_eq!(validate(0, 4, true, true), Err(Rejection::EmptyImage));
    assert_eq!(validate(4, 0, true, true), Err(Rejection::EmptyImage));
    assert_eq!(validate(0, u32::MAX, true, true), Err(Rejection::EmptyImage));
}

#[test]
fn validate_guards_against_overflow() {
    assert_eq!(validate(0x8000_0000, 0x8000_0000, true, true), Err(Rejection::SizeOverflow));
    assert_eq!(validate(u32::MAX, u32::MAX, true, true), Err(Rejection::SizeOverflow));
    assert_eq!(validate(0x8000_0000, 0x7fff_ffff, true, true), Ok(0xffff_fffe_0000_0000));
}

#[test]
fn rejections_have_their_codes() {
    assert_eq!(STATUS_OK, 0);
    assert_eq!(Rejection::MissingInput.code(), 1);
    assert_eq!(Rejection::EmptyImage.code(), 2);
    assert_eq!(Rejection::SizeOverflow.code(), 3);
    assert_eq!(Rejection::MalformedParams.code(), 4);
}

#[test]
fn params_text_decodes_utf8() {
    assert_eq!(params_text(b"{\"radius\": 2}"), "{\"radius\": 2}");
    assert_eq!(params_text("größe ✓".as_bytes()), "größe ✓");
    assert_eq!(params_text(b""), "");
}

#[test]
fn params_text_of_invalid_bytes_is_empty() {
    assert_eq!(params_text(&[0xff]), "");
    assert_eq!(params_text(&[b'{', b'}', 0xc3]), "");
    assert_eq!(params_text(&[0xed, 0xa0, 0x80]), "");
}

fn member(key: &str, value: &str) -> Member {
    Member { key: key.to_string(), value: value.to_string() }
}

#[test]
fn parse_object_takes_objects_only() {
    assert_eq!(parse_object("{}"), Some(Document { members: vec![] }));
    assert!(parse_object(r#" {"a": [1, 2, {"b": null}]} "#).is_some());
    assert_eq!(parse_object(""), None);
    assert_eq!(parse_object("[]"), None);
    assert_eq!(parse_object("12"), None);
    assert_eq!(parse_object(r#""text""#), None);
    assert_eq!(parse_object("{} {}"), None);
    assert_eq!(parse_object(r#"{"a": }"#), None);
    assert_eq!(parse_object(r#"{"a": tru}"#), None);
    assert_eq!(parse_object(r#"{a: 1}"#), None);
}

#[test]
fn parse_object_hands_out_the_values_as_text() {
    let document = parse_object(
        r#"{"a": null, "b": true, "c": 7, "d": -7, "e": 7.5, "f": "7", "g": [7, 8], "h": {"i": 7}}"#,
    )
    .expect("an object");
    let mut members = document.members;
    members.sort_by(|left, right| left.key.cmp(&right.key));
    assert_eq!(
        members,
        vec![
            member("a", "null"),
            member("b", "true"),
            member("c", "7"),
            member("d", "-7"),
            member("e", "7.5"),
            member("f", "\"7\""),
            member("g", "[7, 8]"),
            member("h", "{\"i\": 7}"),
        ]
    );
}

#[test]
fn parse_object_does_not_weigh_values_it_does_not_read() {
    let document = parse_object(r#"{"horizontal": true, "x": 1e999}"#).expect("an object");
    assert_eq!(document.get("x"), Some("1e999"));
    assert_eq!(document.read_bool("horizontal"), Setting::Given(true));
    assert_eq!(document.read_u32("x"), Setting::Invalid);
}

#[test]
fn parse_object_keeps_the_later_of_equal_keys() {
    let document = parse_object(r#"{"a": 1, "a": 2}"#).expect("an object");
    assert_eq!(document.members, vec![member("a", "2")]);
}

#[test]
fn document_get_finds_members_by_key() {
    let document = Document {
        members: vec![member("radius", "3"), member("", "\"\""), member("flag", "false")],
    };
    assert_eq!(document.get("radius"), Some("3"));
    assert_eq!(document.get(""), Some("\"\""));
    assert_eq!(document.get("flag"), Some("false"));
    assert_eq!(document.get("Radius"), None);
    assert_eq!(document.get("radiu"), None);
    assert_eq!(Document { members: vec![] }.get("radius"), None);
}

#[test]
fn document_get_takes_the_first_of_equal_keys() {
    let document = Document { members: vec![member("a", "true"), member("a", "null")] };
    assert_eq!(document.get("a"), Some("true"));
}

#[test]
fn read_bool_tells_the_three_cases() {
    let document = parse_object(r#"{"on": true, "off": false, "count": 1, "name": "true"}"#)
        .expect("an object");
    assert_eq!(document.read_bool("on"), Setting::Given(true));
    assert_eq!(document.read_bool("off"), Setting::Given(false));
    assert_eq!(document.read_bool("count"), Setting::Invalid);
    assert_eq!(document.read_bool("name"), Setting::Invalid);
    assert_eq!(document.read_bool("missing"), Setting::Absent);
    assert_eq!(document.read_bool("On"), Setting::Absent);
}

#[test]
fn read_u32_tells_the_three_cases() {
    let document = parse_object(
        r#"{"zero": 0, "big": 4294967295, "bigger": 4294967296, "negative": -3,
            "fraction": 2.0, "flag": true, "nested": {"zero": 5}, "text": "5"}"#,
    )
    .expect("an object");
    assert_eq!(document.read_u32("zero"), Setting::Given(0));
    assert_eq!(document.read_u32("big"), Setting::Given(u32::MAX));
    assert_eq!(document.read_u32("bigger"), Setting::Invalid);
    assert_eq!(document.read_u32("negative"), Setting::Invalid);
    assert_eq!(document.read_u32("fraction"), Setting::Invalid);
    assert_eq!(document.read_u32("flag"), Setting::Invalid);
    assert_eq!(document.read_u32("nested"), Setting::Invalid);
    assert_eq!(document.read_u32("text"), Setting::Invalid);
    assert_eq!(document.read_u32("five"), Setting::Absent);
}

#[test]
fn read_settings_from_written_members() {
    let document = Document {
        members: vec![
            member("radius", "4294967296"),
            member("iterations", " 12 "),
            member("horizontal", "true"),
            member("vertical", "yes"),
        ],
    };
    assert_eq!(document.read_u32("radius"), Setting::Invalid);
    assert_eq!(document.read_u32("iterations"), Setting::Given(12));
    assert_eq!(document.read_u32("horizontal"), Setting::Invalid);
    assert_eq!(document.read_bool("horizontal"), Setting::Given(true));
    assert_eq!(document.read_bool("vertical"), Setting::Invalid);
    assert_eq!(document.read_bool("radius"), Setting::Invalid);
    assert_eq!(document.read_bool("missing"), Setting::Absent);
}

#[test]
fn status_zero_is_success() {
    assert_eq!(AppError::from_status(0), Ok(()));
}

#[test]
fn other_statuses_are_failures() {
    assert_eq!(AppError::from_status(1), Err(AppError::PluginExec { code: 1 }));
    assert_eq!(AppError::from_status(4), Err(AppError::PluginExec { code: 4 }));
    assert_eq!(AppError::from_status(-7), Err(AppError::PluginExec { code: -7 }));
    assert_eq!(AppError::from_status(i32::MIN), Err(AppError::PluginExec { code: i32::MIN }));
}
