use memexpert::control::{CallbackError, MemeEditAction, MemeEditCallback};
use memexpert::results::{format_result_id, parse_result_id, ChosenResult, ResultSource};
use memexpert::text::{parse_int, signed_decimal_string};

#[test]
fn action_chars_round_trip() {
    let all = [
        MemeEditAction::Ai,
        MemeEditAction::Slug,
        MemeEditAction::Title,
        MemeEditAction::Caption,
        MemeEditAction::Description,
        MemeEditAction::Text,
        MemeEditAction::Source,
        MemeEditAction::Publish,
        MemeEditAction::Draft,
        MemeEditAction::Trash,
        MemeEditAction::File,
    ];
    for a in all {
        assert_eq!(MemeEditAction::from_char(a.to_char()), Ok(a));
    }
    assert_eq!(MemeEditAction::Text.to_char(), 'e');
    assert_eq!(MemeEditAction::Trash.to_char(), 'h');
    assert_eq!(MemeEditAction::from_char('z'), Err(CallbackError::UnknownAction));
}

#[test]
fn callback_data_format() {
    let c = MemeEditCallback { action: MemeEditAction::Title, meme_id: 42, language: "ru".to_string() };
    assert_eq!(c.to_callback_data(), "tru42");
    let c = MemeEditCallback { action: MemeEditAction::Slug, meme_id: 7, language: "  ".to_string() };
    assert_eq!(c.to_callback_data(), "s  7");
}

#[test]
fn callback_data_parse() {
    let c = MemeEditCallback::from_str("den123").unwrap();
    assert_eq!(c.action, MemeEditAction::Description);
    assert_eq!(c.language, "en");
    assert_eq!(c.meme_id, 123);
    let c = MemeEditCallback::from_str("p  -5").unwrap();
    assert_eq!((c.action, c.language.as_str(), c.meme_id), (MemeEditAction::Publish, "  ", -5));
    assert!(matches!(MemeEditCallback::from_str(""), Err(CallbackError::Empty)));
    assert!(matches!(MemeEditCallback::from_str("xru1"), Err(CallbackError::UnknownAction)));
    assert!(matches!(MemeEditCallback::from_str("tru"), Err(CallbackError::BadId)));
    assert!(matches!(MemeEditCallback::from_str("tr"), Err(CallbackError::BadId)));
    assert!(matches!(MemeEditCallback::from_str("tru1x"), Err(CallbackError::BadId)));
    assert!(matches!(MemeEditCallback::from_str("tru2147483648"), Err(CallbackError::BadId)));
    assert_eq!(MemeEditCallback::from_str("tru2147483647").unwrap().meme_id, i32::MAX);
}

#[test]
fn integer_parsing_matches_std() {
    for text in ["0", "12", "-12", "+7", "", "-", "+", "1a", "9223372036854775807", "-9223372036854775808", "9223372036854775808", "99999999999999999999999", "007"] {
        let n = text.chars().count();
        assert_eq!(parse_int(text, 0, n, i64::MIN, i64::MAX), text.parse::<i64>().ok(), "{text}");
    }
    assert_eq!(parse_int("x42y", 1, 3, 0, 100), Some(42));
    assert_eq!(parse_int("500", 0, 3, 0, 100), None);
}

#[test]
fn signed_decimals() {
    assert_eq!(signed_decimal_string(-17), "-17");
    assert_eq!(signed_decimal_string(i64::MIN), "-9223372036854775808");
    assert_eq!(signed_decimal_string(0), "0");
}

#[test]
fn result_ids_round_trip() {
    let id = format_result_id(915, ResultSource::Popular, 33);
    assert_eq!(id, "915:p:33");
    assert_eq!(
        parse_result_id(&id),
        Some(ChosenResult { log_id: 915, source: ResultSource::Popular, meme_id: 33 })
    );
    assert_eq!(parse_result_id("1:q:-4"), Some(ChosenResult { log_id: 1, source: ResultSource::Query, meme_id: -4 }));
}

#[test]
fn malformed_result_ids() {
    for bad in ["", "1:q", "1:q:2:3", "1:x:2", "1:qq:2", "a:q:2", "1:q:", ":q:1", "1::2", "1:q:99999999999"] {
        assert_eq!(parse_result_id(bad), None, "{bad}");
    }
}
