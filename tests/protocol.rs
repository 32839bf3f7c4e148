use yew_chat::codec::{decode, decode_message_data};
use yew_chat::protocol::{build_message, build_register, encode, DecodeError, MsgTypes, WebSocketMessage};
use yew_chat::store::read_chat_message;

fn envelope(kind: MsgTypes, list: Option<Vec<&str>>, data: Option<&str>) -> WebSocketMessage {
    WebSocketMessage {
        message_type: kind,
        data_array: list.map(|l| l.into_iter().map(String::from).collect()),
        data: data.map(String::from),
    }
}

#[test]
fn build_register_writes_register_envelope() {
    assert_eq!(build_register("alice"), "{\"messageType\":\"register\",\"data\":\"alice\"}");
}

#[test]
fn build_message_passes_body_through() {
    assert_eq!(build_message("hi there"), "{\"messageType\":\"message\",\"data\":\"hi there\"}");
    assert_eq!(build_message(""), "{\"messageType\":\"message\",\"data\":\"\"}");
}

#[test]
fn encode_escapes_special_characters() {
    let e = envelope(MsgTypes::Message, None, Some("a\"b\\c\nd\u{1}e"));
    assert_eq!(encode(&e), "{\"messageType\":\"message\",\"data\":\"a\\\"b\\\\c\\nd\\u0001e\"}");
}

#[test]
fn encode_writes_list_and_omits_absent_fields() {
    let e = envelope(MsgTypes::Users, Some(vec!["a", "b"]), None);
    assert_eq!(encode(&e), "{\"messageType\":\"users\",\"dataArray\":[\"a\",\"b\"]}");
    let e = envelope(MsgTypes::Users, None, None);
    assert_eq!(encode(&e), "{\"messageType\":\"users\"}");
    let e = envelope(MsgTypes::Users, Some(vec![]), None);
    assert_eq!(encode(&e), "{\"messageType\":\"users\",\"dataArray\":[]}");
}

fn round_trip(e: WebSocketMessage) {
    let text = encode(&e);
    let back = decode(&text).expect("decodes");
    assert_eq!(back.message_type, e.message_type);
    assert_eq!(back.data_array, e.data_array);
    assert_eq!(back.data, e.data);
}

#[test]
fn round_trip_register_and_message() {
    round_trip(envelope(MsgTypes::Register, None, Some("alice")));
    round_trip(envelope(MsgTypes::Message, None, Some("{\"from\":\"alice\",\"message\":\"hi\"}")));
    round_trip(envelope(MsgTypes::Message, None, Some("")));
    round_trip(envelope(MsgTypes::Message, None, Some("tab\there \u{7} quote\" slash\\ é 💬")));
}

#[test]
fn round_trip_users_list() {
    round_trip(envelope(MsgTypes::Users, Some(vec!["alice", "b\"ob", ""]), None));
    round_trip(envelope(MsgTypes::Users, Some(vec![]), Some("x")));
}

#[test]
fn decode_accepts_whitespace_nulls_and_any_member_order() {
    let e = decode(" { \"data\" : null ,\n\"dataArray\": [ \"a\" , \"b\" ], \"messageType\":\"users\" } ").unwrap();
    assert_eq!(e.message_type, MsgTypes::Users);
    assert_eq!(e.data_array, Some(vec!["a".to_string(), "b".to_string()]));
    assert_eq!(e.data, None);
}

#[test]
fn decode_reads_escapes() {
    let e = decode("{\"messageType\":\"register\",\"data\":\"a\\u0041\\/\\t\"}").unwrap();
    assert_eq!(e.data, Some("aA/\t".to_string()));
}

#[test]
fn decode_ignores_unknown_members() {
    let e = decode("{\"messageType\":\"register\",\"extra\":\"x\",\"data\":\"bob\"}").unwrap();
    assert_eq!(e.message_type, MsgTypes::Register);
    assert_eq!(e.data, Some("bob".to_string()));
}

#[test]
fn decode_rejects_malformed_text() {
    assert_eq!(decode("not json").unwrap_err(), DecodeError::Malformed);
    assert_eq!(decode("").unwrap_err(), DecodeError::Malformed);
    assert_eq!(decode("{\"messageType\":\"users\"").unwrap_err(), DecodeError::Malformed);
    assert_eq!(decode("{\"data\":\"x\"}").unwrap_err(), DecodeError::Malformed);
    assert_eq!(decode("{\"messageType\":\"users\",\"messageType\":\"users\"}").unwrap_err(), DecodeError::Malformed);
    assert_eq!(decode("{\"messageType\":\"users\"} x").unwrap_err(), DecodeError::Malformed);
    assert_eq!(decode("{\"messageType\":7}").unwrap_err(), DecodeError::Malformed);
}

#[test]
fn decode_rejects_unknown_kind() {
    assert_eq!(decode("{\"messageType\":\"typing\"}").unwrap_err(), DecodeError::UnknownKind);
    assert_eq!(decode("{\"messageType\":\"Users\"}").unwrap_err(), DecodeError::UnknownKind);
}

#[test]
fn nested_message_decodes() {
    let m = decode_message_data("{\"from\":\"alice\",\"message\":\"hi\"}").unwrap();
    assert_eq!(m.from, "alice");
    assert_eq!(m.message, "hi");
}

#[test]
fn nested_message_errors() {
    assert!(decode_message_data("{\"from\":\"alice\"}").is_none());
    assert!(decode_message_data("hi").is_none());
    assert_eq!(read_chat_message("garbage").unwrap_err(), DecodeError::NestedPayloadInvalid);
}

#[test]
fn decode_reads_unicode_escapes() {
    let e = decode("{\"messageType\":\"register\",\"data\":\"\\u0141ukasz\"}").unwrap();
    assert_eq!(e.data, Some("\u{141}ukasz".to_string()));
    let e = decode("{\"messageType\":\"message\",\"data\":\"hi \\ud83d\\udcac\"}").unwrap();
    assert_eq!(e.data, Some("hi \u{1f4ac}".to_string()));
    let e = decode("{\"messageType\":\"users\",\"dataArray\":[\"\\u00e9\\uFFFD\"]}").unwrap();
    assert_eq!(e.data_array, Some(vec!["\u{e9}\u{fffd}".to_string()]));
}

#[test]
fn decode_rejects_lone_surrogates() {
    assert_eq!(decode("{\"messageType\":\"register\",\"data\":\"\\ud83d\"}").unwrap_err(), DecodeError::Malformed);
    assert_eq!(decode("{\"messageType\":\"register\",\"data\":\"\\udcac\"}").unwrap_err(), DecodeError::Malformed);
    assert_eq!(
        decode("{\"messageType\":\"register\",\"data\":\"\\ud83d\\u0041\"}").unwrap_err(),
        DecodeError::Malformed
    );
}

#[test]
fn decode_ignores_unknown_members_of_any_type() {
    let e = decode("{\"messageType\":\"users\",\"dataArray\":[\"a\"],\"n\":1}").unwrap();
    assert_eq!(e.message_type, MsgTypes::Users);
    assert_eq!(e.data_array, Some(vec!["a".to_string()]));
    let e = decode(
        "{\"x\":-12.5e+3,\"ok\":true,\"no\":false,\"z\":null,\"o\":{\"k\":[1,{\"q\":[]},\"s\"]},\"e\":{},\"messageType\":\"register\",\"data\":\"bob\"}",
    )
    .unwrap();
    assert_eq!(e.message_type, MsgTypes::Register);
    assert_eq!(e.data, Some("bob".to_string()));
}

#[test]
fn decode_rejects_bad_unknown_values() {
    assert_eq!(decode("{\"messageType\":\"users\",\"n\":01}").unwrap_err(), DecodeError::Malformed);
    assert_eq!(decode("{\"messageType\":\"users\",\"n\":1.}").unwrap_err(), DecodeError::Malformed);
    assert_eq!(decode("{\"messageType\":\"users\",\"n\":tru}").unwrap_err(), DecodeError::Malformed);
    assert_eq!(decode("{\"messageType\":\"users\",\"n\":[1,]}").unwrap_err(), DecodeError::Malformed);
    assert_eq!(decode("{\"messageType\":\"users\",\"dataArray\":[1]}").unwrap_err(), DecodeError::Malformed);
}

#[test]
fn nested_message_ignores_unknown_members() {
    let m = decode_message_data("{\"from\":\"a\",\"message\":\"hi\",\"ts\":1}").unwrap();
    assert_eq!(m.from, "a");
    assert_eq!(m.message, "hi");
}
