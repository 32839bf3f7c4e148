use yew_chat::hub::EventBus;
use yew_chat::protocol::{build_message, DecodeError};
use yew_chat::session::{login, SessionIdentity};
use yew_chat::store::{avatar_url, Chat, Msg};

const USERS_AB: &str = "{\"messageType\":\"users\",\"dataArray\":[\"a\",\"b\"]}";
const USERS_C: &str = "{\"messageType\":\"users\",\"dataArray\":[\"c\"]}";

fn message_frame(from: &str, body: &str) -> String {
    format!(
        "{{\"messageType\":\"message\",\"data\":\"{{\\\"from\\\":\\\"{}\\\",\\\"message\\\":\\\"{}\\\"}}\"}}",
        from, body
    )
}

fn roster(chat: &Chat) -> Vec<(String, String)> {
    chat.users().iter().map(|u| (u.name.clone(), u.avatar.clone())).collect()
}

fn transcript(chat: &Chat) -> Vec<(String, String)> {
    chat.messages().iter().map(|m| (m.from.clone(), m.message.clone())).collect()
}

#[test]
fn avatar_url_fills_template() {
    assert_eq!(avatar_url("alice"), "https://avatars.dicebear.com/api/adventurer-neutral/alice.svg");
    assert_eq!(avatar_url("bob"), avatar_url("bob"));
    assert_ne!(avatar_url("bob"), avatar_url("alice"));
}

#[test]
fn create_registers_user() {
    let (chat, frame) = Chat::create("alice");
    assert_eq!(frame, "{\"messageType\":\"register\",\"data\":\"alice\"}");
    assert!(chat.users().is_empty());
    assert!(chat.messages().is_empty());
}

#[test]
fn users_frame_fills_roster() {
    let (mut chat, _) = Chat::create("me");
    assert!(chat.handle_frame("{\"messageType\":\"users\",\"dataArray\":[\"alice\",\"bob\"]}"));
    assert_eq!(
        roster(&chat),
        vec![
            ("alice".to_string(), "https://avatars.dicebear.com/api/adventurer-neutral/alice.svg".to_string()),
            ("bob".to_string(), "https://avatars.dicebear.com/api/adventurer-neutral/bob.svg".to_string()),
        ]
    );
}

#[test]
fn roster_is_replaced_wholesale() {
    let (mut chat, _) = Chat::create("me");
    assert!(chat.handle_frame(USERS_AB));
    assert!(chat.handle_frame(USERS_C));
    assert_eq!(roster(&chat), vec![("c".to_string(), avatar_url("c"))]);
    assert!(chat.handle_frame(USERS_C));
    assert_eq!(roster(&chat), vec![("c".to_string(), avatar_url("c"))]);
}

#[test]
fn users_frame_without_list_empties_roster() {
    let (mut chat, _) = Chat::create("me");
    assert!(chat.handle_frame(USERS_AB));
    assert!(chat.handle_frame("{\"messageType\":\"users\"}"));
    assert!(chat.users().is_empty());
}

#[test]
fn duplicate_names_are_kept() {
    let (mut chat, _) = Chat::create("me");
    assert!(chat.handle_frame("{\"messageType\":\"users\",\"dataArray\":[\"a\",\"a\"]}"));
    assert_eq!(chat.users().len(), 2);
}

#[test]
fn message_frame_appends_to_transcript() {
    let (mut chat, _) = Chat::create("me");
    assert!(chat.handle_frame("{\"messageType\":\"message\",\"data\":\"{\\\"from\\\":\\\"alice\\\",\\\"message\\\":\\\"hi\\\"}\"}"));
    assert_eq!(transcript(&chat), vec![("alice".to_string(), "hi".to_string())]);
}

#[test]
fn transcript_keeps_order_across_roster_updates() {
    let (mut chat, _) = Chat::create("me");
    assert!(chat.handle_frame(&message_frame("a", "one")));
    assert!(chat.handle_frame(USERS_AB));
    assert!(chat.handle_frame(&message_frame("b", "two")));
    assert!(chat.handle_frame(USERS_C));
    assert!(chat.handle_frame(&message_frame("c", "three")));
    assert_eq!(
        transcript(&chat),
        vec![
            ("a".to_string(), "one".to_string()),
            ("b".to_string(), "two".to_string()),
            ("c".to_string(), "three".to_string()),
        ]
    );
}

#[test]
fn bad_frames_are_discarded() {
    let (mut chat, _) = Chat::create("me");
    assert!(chat.handle_frame(USERS_AB));
    assert!(chat.handle_frame(&message_frame("a", "one")));
    assert!(!chat.handle_frame("not json"));
    assert!(!chat.handle_frame("{\"messageType\":\"typing\"}"));
    assert!(!chat.handle_frame("{\"messageType\":\"message\",\"data\":\"garbage\"}"));
    assert!(!chat.handle_frame("{\"messageType\":\"message\"}"));
    assert!(!chat.handle_frame("{\"messageType\":\"register\",\"data\":\"x\"}"));
    assert_eq!(chat.users().len(), 2);
    assert_eq!(transcript(&chat), vec![("a".to_string(), "one".to_string())]);
}

#[test]
fn update_dispatches_messages() {
    let (mut chat, _) = Chat::create("me");
    let (changed, out) = chat.update(Msg::HandleMsg(USERS_C.to_string()));
    assert!(changed);
    assert!(out.is_none());
    let (changed, out) = chat.update(Msg::SubmitMessage("hello".to_string()));
    assert!(!changed);
    assert_eq!(out, Some(build_message("hello")));
    assert_eq!(out.unwrap(), "{\"messageType\":\"message\",\"data\":\"hello\"}");
}

#[test]
fn avatar_lookup_may_miss() {
    let (mut chat, _) = Chat::create("me");
    assert!(chat.handle_frame(USERS_AB));
    assert_eq!(chat.avatar_of(&"b".to_string()), Some(avatar_url("b")));
    assert_eq!(chat.avatar_of(&"zed".to_string()), None);
}

#[test]
fn hub_fans_out_in_order() {
    let mut bus = EventBus::new();
    let first = bus.subscribe().unwrap();
    let second = bus.subscribe().unwrap();
    assert_ne!(first, second);
    let d = bus.publish("frame");
    assert_eq!(d.len(), 2);
    assert_eq!(d[0].subscriber, first.id);
    assert_eq!(d[1].subscriber, second.id);
    assert_eq!(d[0].frame, "frame");
    assert_eq!(d[1].frame, "frame");
}

#[test]
fn hub_unsubscribe_takes_effect() {
    let mut bus = EventBus::new();
    let first = bus.subscribe().unwrap();
    let second = bus.subscribe().unwrap();
    bus.unsubscribe(first);
    let d = bus.publish("frame");
    assert_eq!(d.len(), 1);
    assert_eq!(d[0].subscriber, second.id);
    bus.unsubscribe(second);
    assert!(bus.publish("again").is_empty());
}

#[test]
fn session_identity_login() {
    let mut id = SessionIdentity::new();
    assert_eq!(id.get(), "");
    assert!(!login(&mut id, ""));
    assert_eq!(id.get(), "");
    assert!(login(&mut id, "alice"));
    assert_eq!(id.get(), "alice");
    id.set("bob");
    assert_eq!(id.get(), "bob");
}

#[test]
fn avatar_url_encodes_name() {
    assert_eq!(
        avatar_url("a b/é"),
        "https://avatars.dicebear.com/api/adventurer-neutral/a%20b%2F%C3%A9.svg"
    );
    assert_eq!(avatar_url("Zed-9_x.~"), "https://avatars.dicebear.com/api/adventurer-neutral/Zed-9_x.~.svg");
}

#[test]
fn message_rows_join_roster() {
    let (mut chat, _) = Chat::create("me");
    assert!(chat.handle_frame(USERS_AB));
    assert!(chat.handle_frame(&message_frame("a", "one")));
    assert!(chat.handle_frame(&message_frame("ghost", "boo")));
    let rows = chat.message_rows();
    assert_eq!(rows.len(), 2);
    assert_eq!(rows[0].from, "a");
    assert_eq!(rows[0].message, "one");
    assert_eq!(rows[0].avatar, Some(avatar_url("a")));
    assert_eq!(rows[1].from, "ghost");
    assert_eq!(rows[1].avatar, None);
}

#[test]
fn receive_reports_why_a_frame_was_discarded() {
    let (mut chat, _) = Chat::create("me");
    assert_eq!(chat.receive("{"), Err(DecodeError::Malformed));
    assert_eq!(chat.receive("{\"messageType\":\"typing\"}"), Err(DecodeError::UnknownKind));
    assert_eq!(
        chat.receive("{\"messageType\":\"message\",\"data\":\"{\\\"from\\\":1}\"}"),
        Err(DecodeError::NestedPayloadInvalid)
    );
    assert_eq!(chat.receive("{\"messageType\":\"message\"}"), Err(DecodeError::NestedPayloadInvalid));
    assert_eq!(chat.receive("{\"messageType\":\"register\",\"data\":\"x\"}"), Ok(false));
    assert_eq!(chat.receive(USERS_C), Ok(true));
    assert!(chat.messages().is_empty());
}

#[test]
fn fresh_hub_starts_with_identifiers() {
    let mut bus = EventBus::new();
    let first = bus.subscribe().unwrap();
    assert_eq!(first.id, 0);
}
