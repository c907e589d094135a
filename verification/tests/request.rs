use ccspeaks::request::{
    check_limits, has_nul, parse_request, select_arguments, RequestError, SpeakRequest,
    DEFAULT_VOICE, MAX_SIZE,
};

fn pairs(items: &[(&str, &str)]) -> Vec<(String, String)> {
    items.iter().map(|(k, v)| (k.to_string(), v.to_string())).collect()
}

fn asked(text: &str, voice: &str) -> Result<SpeakRequest, RequestError> {
    Ok(SpeakRequest { text: text.to_string(), voice: voice.to_string() })
}

#[test]
fn a_query_with_text_and_voice_is_taken() {
    assert_eq!(parse_request("text=hello&voice=de"), asked("hello", "de"));
    assert_eq!(parse_request("voice=fr&text=bonjour"), asked("bonjour", "fr"));
}

#[test]
fn a_query_without_voice_asks_for_the_default() {
    assert_eq!(DEFAULT_VOICE, "en");
    assert_eq!(parse_request("text=hello"), asked("hello", "en"));
}

#[test]
fn names_and_values_are_decoded() {
    assert_eq!(parse_request("text=hello+world%21"), asked("hello world!", "en"));
    assert_eq!(parse_request("%74ext=a%26b&&voice=en-us"), asked("a&b", "en-us"));
    assert_eq!(parse_request("text"), asked("", "en"));
}

#[test]
fn a_later_argument_overrides_an_earlier_one() {
    assert_eq!(parse_request("text=a&text=b&voice=x&voice=y"), asked("b", "y"));
    assert_eq!(
        select_arguments(&pairs(&[("voice", "x"), ("text", "a"), ("voice", "y"), ("text", "b")])),
        asked("b", "y")
    );
}

#[test]
fn an_unknown_argument_is_turned_away() {
    assert_eq!(parse_request("text=a&speed=3"), Err(RequestError::UnknownArgument));
    assert_eq!(parse_request("speed=3"), Err(RequestError::UnknownArgument));
    assert_eq!(parse_request("Text=a"), Err(RequestError::UnknownArgument));
    assert_eq!(
        select_arguments(&pairs(&[("text", "a"), ("", "b")])),
        Err(RequestError::UnknownArgument)
    );
    let long = "x".repeat(MAX_SIZE + 1);
    assert_eq!(
        parse_request(&format!("text={}&other=1", long)),
        Err(RequestError::UnknownArgument)
    );
}

#[test]
fn a_query_without_text_is_turned_away() {
    assert_eq!(parse_request(""), Err(RequestError::MissingText));
    assert_eq!(parse_request("voice=en"), Err(RequestError::MissingText));
    assert_eq!(parse_request("&&"), Err(RequestError::MissingText));
    assert_eq!(select_arguments(&Vec::new()), Err(RequestError::MissingText));
}

#[test]
fn a_text_may_have_as_many_bytes_as_the_limit() {
    assert_eq!(MAX_SIZE, 512);
    let fits = "x".repeat(512);
    assert_eq!(parse_request(&format!("text={}", fits)), asked(&fits, "en"));
    let long = "x".repeat(513);
    assert_eq!(parse_request(&format!("text={}", long)), Err(RequestError::TextTooLong));
    let wide = "\u{e9}".repeat(257);
    assert_eq!(check_limits(&wide, "en"), Some(RequestError::TextTooLong));
    let wide = "\u{e9}".repeat(256);
    assert_eq!(check_limits(&wide, "en"), None);
}

#[test]
fn a_text_with_a_zero_byte_is_turned_away() {
    assert_eq!(parse_request("text=a%00b"), Err(RequestError::TextHasNul));
    assert_eq!(check_limits("\0", "en"), Some(RequestError::TextHasNul));
    assert!(has_nul(b"ab\0"));
    assert!(!has_nul(b"ab0"));
    assert!(!has_nul(b""));
}

#[test]
fn a_voice_is_held_to_its_limits() {
    let fits = "v".repeat(512);
    assert_eq!(check_limits("a", &fits), None);
    let long = "v".repeat(513);
    assert_eq!(check_limits("a", &long), Some(RequestError::VoiceTooLong));
    assert_eq!(parse_request(&format!("text=a&voice={}", long)), Err(RequestError::VoiceTooLong));
    assert_eq!(parse_request("text=a&voice=fran%C3%A7ais"), Err(RequestError::VoiceNotAscii));
    assert_eq!(check_limits("a", "\0"), None);
}

#[test]
fn the_first_broken_limit_is_reported() {
    let long = "x".repeat(600);
    let long_with_nul = format!("{}\0", long);
    assert_eq!(check_limits(&long_with_nul, &long), Some(RequestError::TextTooLong));
    assert_eq!(check_limits("a\0", &long), Some(RequestError::TextHasNul));
    let long_wide = "\u{e9}".repeat(300);
    assert_eq!(check_limits("a", &long_wide), Some(RequestError::VoiceTooLong));
}

#[test]
fn each_error_has_its_sentence() {
    assert_eq!(RequestError::UnknownArgument.message(), "Unknown query argument");
    assert_eq!(RequestError::MissingText.message(), "No text= query parameter");
    assert_eq!(RequestError::TextTooLong.message(), "Text is too long.");
    assert_eq!(RequestError::TextHasNul.message(), "Text cannot contain special characters.");
    assert_eq!(RequestError::VoiceTooLong.message(), "Voice is too long.");
    assert_eq!(RequestError::VoiceNotAscii.message(), "Voice must be ASCII only.");
}
