//! Decoding frames into envelopes and chat messages.
use vstd::prelude::*;
use crate::grammar::{parse_object, JsonField};
use crate::parser::{members_view, parse_object_text, Field};
use crate::protocol::{kind_tag, DecodeError, EnvelopeView, MessageData, MsgTypes, WebSocketMessage};
use crate::text::chars_of;

verus! {

/// The envelope members read so far; the outer `Option` of `list` and
/// `payload` tells whether the member was present at all.
pub struct RawFields {
    pub kind: Option<Seq<char>>,
    pub list: Option<Option<Seq<Seq<char>>>>,
    pub payload: Option<Option<Seq<char>>>,
}

/// One member folded into what was read before; `None` for a repeated known
/// member or one whose value has the wrong shape. Unknown members are ignored.
pub open spec fn absorb(acc: RawFields, m: (Seq<char>, JsonField)) -> Option<RawFields> {
    if m.0 == "messageType"@ {
        match m.1 {
            JsonField::Text(t) => if acc.kind is None {
                Some(RawFields { kind: Some(t), list: acc.list, payload: acc.payload })
            } else {
                None
            },
            _ => None,
        }
    } else if m.0 == "dataArray"@ {
        if acc.list is Some {
            None
        } else {
            match m.1 {
                JsonField::Null => Some(RawFields { kind: acc.kind, list: Some(None), payload: acc.payload }),
                JsonField::List(l) => Some(RawFields { kind: acc.kind, list: Some(Some(l)), payload: acc.payload }),
                _ => None,
            }
        }
    } else if m.0 == "data"@ {
        if acc.payload is Some {
            None
        } else {
            match m.1 {
                JsonField::Null => Some(RawFields { kind: acc.kind, list: acc.list, payload: Some(None) }),
                JsonField::Text(t) => Some(RawFields { kind: acc.kind, list: acc.list, payload: Some(Some(t)) }),
                _ => None,
            }
        }
    } else {
        Some(acc)
    }
}

/// The members folded in order.
pub open spec fn fold_fields(ms: Seq<(Seq<char>, JsonField)>) -> Option<RawFields>
    decreases ms.len(),
{
    if ms.len() == 0 {
        Some(RawFields { kind: None, list: None, payload: None })
    } else {
        match fold_fields(ms.drop_last()) {
            Some(acc) => absorb(acc, ms.last()),
            None => None,
        }
    }
}

/// The kind whose wire token is `t`.
pub open spec fn kind_of_tag(t: Seq<char>) -> Option<MsgTypes> {
    if t == kind_tag(MsgTypes::Users) {
        Some(MsgTypes::Users)
    } else if t == kind_tag(MsgTypes::Register) {
        Some(MsgTypes::Register)
    } else if t == kind_tag(MsgTypes::Message) {
        Some(MsgTypes::Message)
    } else {
        None
    }
}

pub open spec fn present<T>(o: Option<Option<T>>) -> Option<T> {
    match o {
        Some(Some(v)) => Some(v),
        _ => None,
    }
}

/// What a frame decodes to.
pub open spec fn decode_spec(s: Seq<char>) -> Result<EnvelopeView, DecodeError> {
    match parse_object(s) {
        None => Err(DecodeError::Malformed),
        Some(ms) => match fold_fields(ms) {
            None => Err(DecodeError::Malformed),
            Some(raw) => match raw.kind {
                None => Err(DecodeError::Malformed),
                Some(t) => match kind_of_tag(t) {
                    None => Err(DecodeError::UnknownKind),
                    Some(k) => Ok(EnvelopeView { kind: k, list: present(raw.list), payload: present(raw.payload) }),
                },
            },
        },
    }
}

/// The sender and body of a chat message read from its members; unknown
/// members are ignored, a repeated or non-string `from` or `message` fails.
pub open spec fn fold_chat(ms: Seq<(Seq<char>, JsonField)>) -> Option<(Option<Seq<char>>, Option<Seq<char>>)>
    decreases ms.len(),
{
    if ms.len() == 0 {
        Some((None, None))
    } else {
        match fold_chat(ms.drop_last()) {
            None => None,
            Some((from, message)) => {
                let m = ms.last();
                if m.0 == "from"@ {
                    match m.1 {
                        JsonField::Text(t) => if from is None { Some((Some(t), message)) } else { None },
                        _ => None,
                    }
                } else if m.0 == "message"@ {
                    match m.1 {
                        JsonField::Text(t) => if message is None { Some((from, Some(t))) } else { None },
                        _ => None,
                    }
                } else {
                    Some((from, message))
                }
            },
        }
    }
}

/// The sender and body of the chat message that a payload holds.
pub open spec fn chat_message_spec(s: Seq<char>) -> Option<(Seq<char>, Seq<char>)> {
    match parse_object(s) {
        None => None,
        Some(ms) => match fold_chat(ms) {
            Some((Some(f), Some(m))) => Some((f, m)),
            _ => None,
        },
    }
}

proof fn lemma_fold_fields_prefix_none(ms: Seq<(Seq<char>, JsonField)>, n: int)
    requires
        0 <= n <= ms.len(),
        fold_fields(ms.subrange(0, n)) is None,
    ensures
        fold_fields(ms) is None,
    decreases ms.len() - n,
{
    if n == ms.len() {
        assert(ms.subrange(0, n) =~= ms);
    } else {
        assert(ms.subrange(0, n + 1).drop_last() =~= ms.subrange(0, n));
        lemma_fold_fields_prefix_none(ms, n + 1);
    }
}

proof fn lemma_fold_chat_prefix_none(ms: Seq<(Seq<char>, JsonField)>, n: int)
    requires
        0 <= n <= ms.len(),
        fold_chat(ms.subrange(0, n)) is None,
    ensures
        fold_chat(ms) is None,
    decreases ms.len() - n,
{
    if n == ms.len() {
        assert(ms.subrange(0, n) =~= ms);
    } else {
        assert(ms.subrange(0, n + 1).drop_last() =~= ms.subrange(0, n));
        lemma_fold_chat_prefix_none(ms, n + 1);
    }
}

fn text_is(a: &String, b: &str) -> (r: bool)
    ensures
        r == (a@ == b@),
{
    let t = String::from_str(b);
    *a == t
}

/// Decodes a frame into an envelope.
pub fn decode(frame: &str) -> (r: Result<WebSocketMessage, DecodeError>)
    ensures
        match r {
            Ok(e) => decode_spec(frame@) == Ok::<EnvelopeView, DecodeError>(e@),
            Err(x) => decode_spec(frame@) == Err::<EnvelopeView, DecodeError>(x),
        },
{
    let chars = chars_of(frame);
    let mut ms = match parse_object_text(&chars) {
        Some(ms) => ms,
        None => {
            return Err(DecodeError::Malformed);
        },
    };
    let ghost all = members_view(ms@);
    let mut kind: Option<String> = None;
    let mut list: Option<Option<Vec<String>>> = None;
    let mut payload: Option<Option<String>> = None;
    let ghost mut done: int = 0;
    proof {
        assert(all.subrange(0, 0) =~= Seq::<(Seq<char>, JsonField)>::empty());
    }
    while ms.len() > 0
        invariant
            0 <= done <= all.len(),
            members_view(ms@) == all.subrange(done, all.len() as int),
            parse_object(frame@) == Some(all),
            fold_fields(all.subrange(0, done)) == Some(RawFields {
                kind: match kind { Some(k) => Some(k@), None => None },
                list: match list { Some(Some(l)) => Some(Some(l.deep_view())), Some(None) => Some(None), None => None },
                payload: match payload { Some(Some(p)) => Some(Some(p@)), Some(None) => Some(None), None => None },
            }),
        decreases ms@.len(),
    {
        let ghost mv = members_view(ms@)[0];
        assert(members_view(ms@).len() == ms@.len());
        let ghost before = ms@;
        let (key, value) = ms.remove(0);
        assert(ms@ =~= before.subrange(1, before.len() as int));
        proof {
            assert(mv == (key@, value@));
            assert(all.subrange(0, done + 1).drop_last() =~= all.subrange(0, done));
            assert(all.subrange(0, done + 1).last() == all[done]);
            assert(mv == all[done]);
            assert forall|j: int| 0 <= j < ms@.len() implies members_view(ms@)[j] == all[done + 1 + j] by {
                assert(members_view(before)[j + 1] == all[done + 1 + j]);
            }
            assert(members_view(ms@) =~= all.subrange(done + 1, all.len() as int));
            done = done + 1;
        }
        if text_is(&key, "messageType") {
            match value {
                Field::Text(t) => {
                    if kind.is_some() {
                        proof {
                            lemma_fold_fields_prefix_none(all, done);
                        }
                        return Err(DecodeError::Malformed);
                    }
                    kind = Some(t);
                },
                _ => {
                    proof {
                        lemma_fold_fields_prefix_none(all, done);
                    }
                    return Err(DecodeError::Malformed);
                },
            }
        } else if text_is(&key, "dataArray") {
            if list.is_some() {
                proof {
                    lemma_fold_fields_prefix_none(all, done);
                }
                return Err(DecodeError::Malformed);
            }
            match value {
                Field::Null => {
                    list = Some(None);
                },
                Field::List(l) => {
                    list = Some(Some(l));
                },
                _ => {
                    proof {
                        lemma_fold_fields_prefix_none(all, done);
                    }
                    return Err(DecodeError::Malformed);
                },
            }
        } else if text_is(&key, "data") {
            if payload.is_some() {
                proof {
                    lemma_fold_fields_prefix_none(all, done);
                }
                return Err(DecodeError::Malformed);
            }
            match value {
                Field::Null => {
                    payload = Some(None);
                },
                Field::Text(t) => {
                    payload = Some(Some(t));
                },
                _ => {
                    proof {
                        lemma_fold_fields_prefix_none(all, done);
                    }
                    return Err(DecodeError::Malformed);
                },
            }
        }
    }
    assert(all.subrange(0, done) =~= all);
    let tag = match kind {
        Some(t) => t,
        None => {
            return Err(DecodeError::Malformed);
        },
    };
    proof {
        reveal_strlit("users");
        reveal_strlit("register");
        reveal_strlit("message");
        assert("users"@ =~= kind_tag(MsgTypes::Users));
        assert("register"@ =~= kind_tag(MsgTypes::Register));
        assert("message"@ =~= kind_tag(MsgTypes::Message));
    }
    let message_type = if text_is(&tag, "users") {
        MsgTypes::Users
    } else if text_is(&tag, "register") {
        MsgTypes::Register
    } else if text_is(&tag, "message") {
        MsgTypes::Message
    } else {
        return Err(DecodeError::UnknownKind);
    };
    let data_array = match list {
        Some(Some(l)) => Some(l),
        _ => None,
    };
    let data = match payload {
        Some(Some(p)) => Some(p),
        _ => None,
    };
    Ok(WebSocketMessage { message_type, data_array, data })
}

/// Decodes the chat message that a `Message` envelope's payload holds.
pub fn decode_message_data(payload: &str) -> (r: Option<MessageData>)
    ensures
        match r {
            Some(m) => chat_message_spec(payload@) == Some(m@),
            None => chat_message_spec(payload@) is None,
        },
{
    let chars = chars_of(payload);
    let mut ms = match parse_object_text(&chars) {
        Some(ms) => ms,
        None => {
            return None;
        },
    };
    let ghost all = members_view(ms@);
    let mut from: Option<String> = None;
    let mut message: Option<String> = None;
    let ghost mut done: int = 0;
    proof {
        assert(all.subrange(0, 0) =~= Seq::<(Seq<char>, JsonField)>::empty());
    }
    while ms.len() > 0
        invariant
            0 <= done <= all.len(),
            members_view(ms@) == all.subrange(done, all.len() as int),
            parse_object(payload@) == Some(all),
            fold_chat(all.subrange(0, done)) == Some((
                match from { Some(f) => Some(f@), None => None },
                match message { Some(m) => Some(m@), None => None },
            )),
        decreases ms@.len(),
    {
        let ghost mv = members_view(ms@)[0];
        assert(members_view(ms@).len() == ms@.len());
        let ghost before = ms@;
        let (key, value) = ms.remove(0);
        assert(ms@ =~= before.subrange(1, before.len() as int));
        proof {
            assert(mv == (key@, value@));
            assert(all.subrange(0, done + 1).drop_last() =~= all.subrange(0, done));
            assert(all.subrange(0, done + 1).last() == all[done]);
            assert(mv == all[done]);
            assert forall|j: int| 0 <= j < ms@.len() implies members_view(ms@)[j] == all[done + 1 + j] by {
                assert(members_view(before)[j + 1] == all[done + 1 + j]);
            }
            assert(members_view(ms@) =~= all.subrange(done + 1, all.len() as int));
            done = done + 1;
        }
        if text_is(&key, "from") {
            match value {
                Field::Text(t) => {
                    if from.is_some() {
                        proof {
                            lemma_fold_chat_prefix_none(all, done);
                        }
                        return None;
                    }
                    from = Some(t);
                },
                _ => {
                    proof {
                        lemma_fold_chat_prefix_none(all, done);
                    }
                    return None;
                },
            }
        } else if text_is(&key, "message") {
            match value {
                Field::Text(t) => {
                    if message.is_some() {
                        proof {
                            lemma_fold_chat_prefix_none(all, done);
                        }
                        return None;
                    }
                    message = Some(t);
                },
                _ => {
                    proof {
                        lemma_fold_chat_prefix_none(all, done);
                    }
                    return None;
                },
            }
        }
    }
    assert(all.subrange(0, done) =~= all);
    match (from, message) {
        (Some(f), Some(m)) => Some(MessageData { from: f, message: m }),
        _ => None,
    }
}

} // verus!
