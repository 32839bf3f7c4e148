//! The local state store: the roster of connected users and the transcript.
use vstd::prelude::*;
use vstd::utf8::encode_utf8;
use crate::codec::{chat_message_spec, decode, decode_message_data, decode_spec};
use crate::protocol::{
    build_message, build_register, encode_spec, message_envelope, register_envelope, DecodeError,
    EnvelopeView, MessageData, MsgTypes, WebSocketMessage,
};

verus! {

/// The text in front of a user's name in an avatar URL.
pub const AVATAR_PREFIX: &'static str = "https://avatars.dicebear.com/api/adventurer-neutral/";

/// The text after a user's name in an avatar URL.
pub const AVATAR_SUFFIX: &'static str = ".svg";

/// A byte that stands for itself in a URL path segment.
pub open spec fn is_unreserved(b: u8) -> bool {
    (0x41 <= b && b <= 0x5a) || (0x61 <= b && b <= 0x7a) || (0x30 <= b && b <= 0x39) || b == 0x2d || b == 0x2e
        || b == 0x5f || b == 0x7e
}

pub open spec fn upper_hex_digit(n: u8) -> char {
    if n < 10 {
        ((n + 48) as u8) as char
    } else {
        ((n + 55) as u8) as char
    }
}

/// One byte of a URL-encoded text.
pub open spec fn url_byte(b: u8) -> Seq<char> {
    if is_unreserved(b) {
        seq![b as char]
    } else {
        seq!['%', upper_hex_digit(b / 16), upper_hex_digit(b % 16)]
    }
}

/// Percent-encoding of bytes: unreserved bytes stay, every other byte becomes `%XX`.
pub open spec fn url_encode(bs: Seq<u8>) -> Seq<char>
    decreases bs.len(),
{
    if bs.len() == 0 {
        Seq::empty()
    } else {
        url_encode(bs.drop_last()) + url_byte(bs.last())
    }
}

/// The avatar URL of a user: the URL-encoded UTF-8 of the name put into the
/// avatar service's template.
pub open spec fn avatar_spec(name: Seq<char>) -> Seq<char> {
    AVATAR_PREFIX@ + url_encode(encode_utf8(name)) + AVATAR_SUFFIX@
}

fn upper_hex_digit_exec(n: u8) -> (r: char)
    requires
        n < 16,
    ensures
        r == upper_hex_digit(n),
{
    if n < 10 {
        (n + 48) as char
    } else {
        (n + 55) as char
    }
}

/// The avatar URL of the user called `name`.
pub fn avatar_url(name: &str) -> (r: String)
    ensures
        r@ == avatar_spec(name@),
{
    let bytes = name.as_bytes();
    let mut out: Vec<char> = crate::text::chars_of(AVATAR_PREFIX);
    let mut i: usize = 0;
    while i < bytes.len()
        invariant
            i <= bytes@.len(),
            bytes@ == encode_utf8(name@),
            out@ == AVATAR_PREFIX@ + url_encode(bytes@.subrange(0, i as int)),
        decreases bytes@.len() - i,
    {
        let b = bytes[i];
        proof {
            let sub = bytes@.subrange(0, i + 1);
            assert(sub.drop_last() =~= bytes@.subrange(0, i as int));
            assert(sub.last() == b);
        }
        if (0x41 <= b && b <= 0x5a) || (0x61 <= b && b <= 0x7a) || (0x30 <= b && b <= 0x39) || b == 0x2d || b == 0x2e
            || b == 0x5f || b == 0x7e {
            out.push(b as char);
        } else {
            out.push('%');
            out.push(upper_hex_digit_exec(b / 16));
            out.push(upper_hex_digit_exec(b % 16));
        }
        i = i + 1;
        assert(out@ =~= AVATAR_PREFIX@ + url_encode(bytes@.subrange(0, i as int)));
    }
    assert(bytes@.subrange(0, bytes@.len() as int) =~= bytes@);
    let suffix = crate::text::chars_of(AVATAR_SUFFIX);
    crate::text::push_all(&mut out, &suffix);
    crate::text::string_of_chars(&out)
}

/// A connected user as displayed.
#[derive(Debug)]
pub struct UserProfile {
    pub name: String,
    pub avatar: String,
}

impl View for UserProfile {
    type V = (Seq<char>, Seq<char>);

    open spec fn view(&self) -> (Seq<char>, Seq<char>) {
        (self.name@, self.avatar@)
    }
}

/// One profile per name, in the same order.
pub open spec fn profiles_of(names: Seq<Seq<char>>) -> Seq<(Seq<char>, Seq<char>)> {
    names.map_values(|n: Seq<char>| (n, avatar_spec(n)))
}

/// The mathematical state of the store.
pub struct ChatState {
    pub roster: Seq<(Seq<char>, Seq<char>)>,
    pub transcript: Seq<(Seq<char>, Seq<char>)>,
}

/// The state after an envelope, and whether it changed (a re-render is due).
pub open spec fn apply_spec(st: ChatState, e: EnvelopeView) -> (ChatState, bool) {
    match e.kind {
        MsgTypes::Users => {
            let names = match e.list {
                Some(l) => l,
                None => Seq::empty(),
            };
            (ChatState { roster: profiles_of(names), transcript: st.transcript }, true)
        },
        MsgTypes::Message => match e.payload {
            Some(p) => match chat_message_spec(p) {
                Some(m) => (ChatState { roster: st.roster, transcript: st.transcript.push(m) }, true),
                None => (st, false),
            },
            None => (st, false),
        },
        MsgTypes::Register => (st, false),
    }
}

/// The state after an inbound frame; a frame that does not decode leaves it as it was.
pub open spec fn handle_spec(st: ChatState, frame: Seq<char>) -> (ChatState, bool) {
    match decode_spec(frame) {
        Ok(e) => apply_spec(st, e),
        Err(_) => (st, false),
    }
}

/// The outcome of an inbound frame: the new state and whether it changed, or
/// why the frame was discarded (the state then stays as it was).
pub open spec fn receive_spec(st: ChatState, frame: Seq<char>) -> Result<(ChatState, bool), DecodeError> {
    match decode_spec(frame) {
        Err(x) => Err(x),
        Ok(e) => if e.kind == MsgTypes::Message && (e.payload is None || chat_message_spec(e.payload->0) is None) {
            Err(DecodeError::NestedPayloadInvalid)
        } else {
            Ok(apply_spec(st, e))
        },
    }
}

/// The avatar of the first roster entry called `name`, if any.
pub open spec fn lookup_spec(roster: Seq<(Seq<char>, Seq<char>)>, name: Seq<char>) -> Option<Seq<char>>
    decreases roster.len(),
{
    if roster.len() == 0 {
        None
    } else if roster[0].0 == name {
        Some(roster[0].1)
    } else {
        lookup_spec(roster.drop_first(), name)
    }
}

/// What the chat component is told.
pub enum Msg {
    /// An inbound frame from the transport.
    HandleMsg(String),
    /// The user asked to send the text of the input field.
    SubmitMessage(String),
}

/// A transcript line joined with its sender's avatar; `avatar` is `None`
/// where the sender is not in the current roster.
#[derive(Debug)]
pub struct MessageRow {
    pub from: String,
    pub message: String,
    pub avatar: Option<String>,
}

impl View for MessageRow {
    type V = (Seq<char>, Seq<char>, Option<Seq<char>>);

    open spec fn view(&self) -> (Seq<char>, Seq<char>, Option<Seq<char>>) {
        (self.from@, self.message@, match self.avatar {
            Some(a) => Some(a@),
            None => None,
        })
    }
}

/// Each transcript line joined with the avatar of its sender in `roster`.
pub open spec fn rows_spec(
    roster: Seq<(Seq<char>, Seq<char>)>,
    transcript: Seq<(Seq<char>, Seq<char>)>,
) -> Seq<(Seq<char>, Seq<char>, Option<Seq<char>>)> {
    transcript.map_values(|m: (Seq<char>, Seq<char>)| (m.0, m.1, lookup_spec(roster, m.0)))
}

/// The chat screen's state: the roster and the transcript.
pub struct Chat {
    users: Vec<UserProfile>,
    messages: Vec<MessageData>,
}

impl View for Chat {
    type V = ChatState;

    closed spec fn view(&self) -> ChatState {
        ChatState {
            roster: self.users@.map_values(|u: UserProfile| u@),
            transcript: self.messages@.map_values(|m: MessageData| m@),
        }
    }
}

/// Reads the chat message in a `Message` envelope's payload.
pub fn read_chat_message(payload: &str) -> (r: Result<MessageData, DecodeError>)
    ensures
        match r {
            Ok(m) => chat_message_spec(payload@) == Some(m@),
            Err(x) => chat_message_spec(payload@) is None && x == DecodeError::NestedPayloadInvalid,
        },
{
    match decode_message_data(payload) {
        Some(m) => Ok(m),
        None => Err(DecodeError::NestedPayloadInvalid),
    }
}

fn profiles(names: &Vec<String>) -> (r: Vec<UserProfile>)
    ensures
        r@.map_values(|u: UserProfile| u@) == profiles_of(names.deep_view()),
{
    let mut r: Vec<UserProfile> = Vec::new();
    let mut i: usize = 0;
    while i < names.len()
        invariant
            i <= names@.len(),
            r@.map_values(|u: UserProfile| u@) == profiles_of(names.deep_view().subrange(0, i as int)),
        decreases names@.len() - i,
    {
        let name = names[i].clone();
        let avatar = avatar_url(names[i].as_str());
        let ghost before = r@;
        let ghost n = names@[i as int]@;
        let p = UserProfile { name, avatar };
        assert(p@ == (n, avatar_spec(n)));
        r.push(p);
        proof {
            let sub = names.deep_view().subrange(0, i as int);
            assert(names.deep_view()[i as int] == n);
            assert(names.deep_view().subrange(0, i + 1) =~= sub.push(n));
            assert(profiles_of(sub.push(n)) =~= profiles_of(sub).push((n, avatar_spec(n))));
            assert(r@.map_values(|u: UserProfile| u@) =~= before.map_values(|u: UserProfile| u@).push(p@));
        }
        i = i + 1;
    }
    assert(names.deep_view().subrange(0, names@.len() as int) =~= names.deep_view());
    r
}

impl Chat {
    /// A chat screen for `username`, with an empty roster and transcript, and
    /// the frame that registers the user with the server.
    pub fn create(username: &str) -> (r: (Chat, String))
        ensures
            r.0@.roster.len() == 0,
            r.0@.transcript.len() == 0,
            r.1@ == encode_spec(register_envelope(username@)),
    {
        let chat = Chat { users: Vec::new(), messages: Vec::new() };
        proof {
            assert(chat@.roster =~= Seq::<(Seq<char>, Seq<char>)>::empty());
            assert(chat@.transcript =~= Seq::<(Seq<char>, Seq<char>)>::empty());
        }
        (chat, build_register(username))
    }

    /// Folds a decoded envelope into the state; returns whether it changed.
    pub fn apply(&mut self, e: WebSocketMessage) -> (changed: bool)
        ensures
            (final(self)@, changed) == apply_spec(old(self)@, e@),
    {
        match e.message_type {
            MsgTypes::Users => {
                let names = match e.data_array {
                    Some(l) => l,
                    None => Vec::new(),
                };
                proof {
                    if e.data_array is None {
                        assert(names.deep_view() =~= Seq::<Seq<char>>::empty());
                    }
                }
                self.users = profiles(&names);
                true
            },
            MsgTypes::Message => match e.data {
                Some(p) => match read_chat_message(p.as_str()) {
                    Ok(m) => {
                        let ghost before = self.messages@;
                        self.messages.push(m);
                        proof {
                            assert(self.messages@.map_values(|m: MessageData| m@) =~= before.map_values(
                                |m: MessageData| m@,
                            ).push(m@));
                        }
                        true
                    },
                    Err(_) => false,
                },
                None => false,
            },
            MsgTypes::Register => false,
        }
    }

    /// Receives an inbound frame: decodes it and folds it into the state.
    /// A frame that does not decode, or a `Message` frame without a readable
    /// chat message, is discarded with the reason and changes nothing.
    pub fn receive(&mut self, frame: &str) -> (r: Result<bool, DecodeError>)
        ensures
            match r {
                Ok(changed) => receive_spec(old(self)@, frame@) == Ok::<(ChatState, bool), DecodeError>((final(self)@, changed)),
                Err(x) => receive_spec(old(self)@, frame@) == Err::<(ChatState, bool), DecodeError>(x) && final(self)@ == old(self)@,
            },
    {
        match decode(frame) {
            Ok(e) => {
                if e.message_type == MsgTypes::Message {
                    match &e.data {
                        Some(p) => {
                            if let Err(x) = read_chat_message(p.as_str()) {
                                return Err(x);
                            }
                        },
                        None => {
                            return Err(DecodeError::NestedPayloadInvalid);
                        },
                    }
                }
                Ok(self.apply(e))
            },
            Err(x) => Err(x),
        }
    }

    /// Handles an inbound frame: decodes it and folds it into the state. A
    /// frame that does not decode is discarded and changes nothing.
    pub fn handle_frame(&mut self, frame: &str) -> (changed: bool)
        ensures
            (final(self)@, changed) == handle_spec(old(self)@, frame@),
    {
        match self.receive(frame) {
            Ok(changed) => changed,
            Err(_) => false,
        }
    }

    /// Reacts to a component message: returns whether a re-render is due and
    /// the frame to send, if any.
    pub fn update(&mut self, msg: Msg) -> (r: (bool, Option<String>))
        ensures
            match msg {
                Msg::HandleMsg(frame) => (final(self)@, r.0) == handle_spec(old(self)@, frame@) && r.1 is None,
                Msg::SubmitMessage(body) => final(self)@ == old(self)@ && !r.0 && r.1 is Some
                    && r.1->0@ == encode_spec(message_envelope(body@)),
            },
    {
        match msg {
            Msg::HandleMsg(frame) => (self.handle_frame(frame.as_str()), None),
            Msg::SubmitMessage(body) => (false, Some(build_message(body.as_str()))),
        }
    }

    /// The avatar of the first roster entry called `name`, if any.
    pub fn avatar_of(&self, name: &String) -> (r: Option<String>)
        ensures
            match r {
                Some(a) => lookup_spec(self@.roster, name@) == Some(a@),
                None => lookup_spec(self@.roster, name@) is None,
            },
    {
        let ghost roster = self@.roster;
        let mut i: usize = 0;
        assert(roster.subrange(0, roster.len() as int) =~= roster);
        while i < self.users.len()
            invariant
                i <= self.users@.len(),
                roster == self.users@.map_values(|u: UserProfile| u@),
                lookup_spec(roster, name@) == lookup_spec(roster.subrange(i as int, roster.len() as int), name@),
            decreases self.users@.len() - i,
        {
            let ghost rest = roster.subrange(i as int, roster.len() as int);
            assert(rest.drop_first() =~= roster.subrange(i + 1, roster.len() as int));
            if self.users[i].name == *name {
                return Some(self.users[i].avatar.clone());
            }
            i = i + 1;
        }
        None
    }

    /// The transcript as displayed: each line with its sender's avatar,
    /// `None` where the sender is not in the current roster.
    pub fn message_rows(&self) -> (r: Vec<MessageRow>)
        ensures
            r@.map_values(|row: MessageRow| row@) == rows_spec(self@.roster, self@.transcript),
    {
        let ghost tr = self@.transcript;
        let mut r: Vec<MessageRow> = Vec::new();
        let mut i: usize = 0;
        while i < self.messages.len()
            invariant
                i <= self.messages@.len(),
                tr == self.messages@.map_values(|m: MessageData| m@),
                r@.map_values(|row: MessageRow| row@) == rows_spec(self@.roster, tr.subrange(0, i as int)),
            decreases self.messages@.len() - i,
        {
            let m = &self.messages[i];
            let avatar = self.avatar_of(&m.from);
            let row = MessageRow { from: m.from.clone(), message: m.message.clone(), avatar };
            let ghost before = r@;
            r.push(row);
            proof {
                assert(tr[i as int] == m@);
                assert(tr.subrange(0, i + 1) =~= tr.subrange(0, i as int).push(m@));
                assert(r@.map_values(|row: MessageRow| row@) =~= before.map_values(|row: MessageRow| row@).push(row@));
                assert(rows_spec(self@.roster, tr.subrange(0, i + 1)) =~= rows_spec(self@.roster, tr.subrange(0, i as int)).push(row@));
            }
            i = i + 1;
        }
        assert(tr.subrange(0, tr.len() as int) =~= tr);
        r
    }

    /// The roster, in order.
    pub fn users(&self) -> (r: &Vec<UserProfile>)
        ensures
            r@.map_values(|u: UserProfile| u@) == self@.roster,
    {
        &self.users
    }

    /// The transcript, in arrival order.
    pub fn messages(&self) -> (r: &Vec<MessageData>)
        ensures
            r@.map_values(|m: MessageData| m@) == self@.transcript,
    {
        &self.messages
    }
}

} // verus!
