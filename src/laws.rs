//! Laws relating the encoder, the decoder and the store.
use vstd::prelude::*;
use crate::codec::{absorb, chat_message_spec, decode_spec, fold_fields, kind_of_tag, RawFields};
use crate::grammar::{field_value, json_string, list_items, members, parse_object, str_body, JsonField};
use crate::hub::{bus_wf, deliveries_spec, lemma_without_from, subscribe_spec, without, BusState};
use crate::protocol::{
    comma_items, encode_spec, escape, escape_char, hex_digit, kind_tag, quote, quote_list, DecodeError,
    EnvelopeView, MsgTypes,
};
use crate::store::{apply_spec, avatar_spec, handle_spec, profiles_of, ChatState};

verus! {

proof fn lemma_drop_one(c: char, r: Seq<char>)
    ensures
        (seq![c] + r).drop_first() == r,
        (seq![c] + r)[0] == c,
        (seq![c] + r).len() == r.len() + 1,
{
    assert((seq![c] + r).drop_first() =~= r);
}

proof fn lemma_control_char_code(c: char)
    requires
        (c as u32) < 0x20,
    ensures
        (((c as u32) as u8) as char) == c,
{
}

/// The body of a string literal written by the encoder reads back as the text it holds.
#[verifier::rlimit(60)]
pub proof fn lemma_str_body_escape(t: Seq<char>, rest: Seq<char>)
    ensures
        str_body(escape(t) + seq!['"'] + rest) == Some((t, rest)),
    decreases t.len(),
{
    let s = escape(t) + seq!['"'] + rest;
    if t.len() == 0 {
        assert(s =~= seq!['"'] + rest);
        lemma_drop_one('"', rest);
        assert(t =~= Seq::<char>::empty());
    } else {
        let c = t[0];
        let tail = t.drop_first();
        let x = escape(tail) + seq!['"'] + rest;
        lemma_str_body_escape(tail, rest);
        assert(s =~= escape_char(c) + x);
        assert(seq![c] + tail =~= t);
        if c == '"' || c == '\\' || c == '\n' || c == '\r' || c == '\t' || c == '\x08' || c == '\x0c' {
            assert(s.subrange(2, s.len() as int) =~= x);
        } else if (c as u32) < 0x20 {
            let code = c as u32;
            let hi = (code / 16) as u8;
            let lo = (code % 16) as u8;
            assert(s.subrange(6, s.len() as int) =~= x);
            assert(s[2] == '0' && s[3] == '0' && s[4] == hex_digit(hi) && s[5] == hex_digit(lo));
            assert(hex_digit(hi) == ((hi + 48) as u8) as char);
            assert(((((hi + 48) as u8) as char) as u32) == hi + 48);
            if lo < 10 {
                assert(((((lo + 48) as u8) as char) as u32) == lo + 48);
            } else {
                assert(((((lo + 87) as u8) as char) as u32) == lo + 87);
            }
            lemma_control_char_code(c);
        } else {
            assert(s.drop_first() =~= x);
        }
    }
}

/// A string literal written by the encoder reads back as the text it holds.
pub proof fn lemma_json_string_quote(t: Seq<char>, rest: Seq<char>)
    ensures
        json_string(quote(t) + rest) == Some((t, rest)),
        (quote(t) + rest).len() > rest.len(),
        (quote(t) + rest)[0] == '"',
{
    let s = quote(t) + rest;
    assert(s.drop_first() =~= escape(t) + seq!['"'] + rest);
    lemma_str_body_escape(t, rest);
}

proof fn lemma_field_text(t: Seq<char>, rest: Seq<char>)
    ensures
        field_value(quote(t) + rest) == Some((JsonField::Text(t), rest)),
{
    lemma_json_string_quote(t, rest);
}

proof fn lemma_list_items(l: Seq<Seq<char>>, rest: Seq<char>)
    requires
        l.len() > 0,
    ensures
        list_items(quote(l[0]) + (comma_items(l.drop_first()) + (seq![']'] + rest))) == Some((l, rest)),
    decreases l.len(),
{
    let tail = l.drop_first();
    let r = comma_items(tail) + (seq![']'] + rest);
    let s = quote(l[0]) + r;
    lemma_json_string_quote(l[0], r);
    if tail.len() == 0 {
        assert(r =~= seq![']'] + rest);
        lemma_drop_one(']', rest);
        assert(seq![l[0]] =~= l);
    } else {
        let r2 = quote(tail[0]) + (comma_items(tail.drop_first()) + (seq![']'] + rest));
        assert(r =~= seq![','] + r2);
        lemma_drop_one(',', r2);
        lemma_json_string_quote(tail[0], comma_items(tail.drop_first()) + (seq![']'] + rest));
        lemma_list_items(tail, rest);
        assert(seq![l[0]] + tail =~= l);
    }
}

proof fn lemma_field_list(l: Seq<Seq<char>>, rest: Seq<char>)
    requires
        rest.len() > 0,
        rest[0] == ',' || rest[0] == '}',
    ensures
        field_value(quote_list(l) + rest) == Some((JsonField::List(l), rest)),
{
    let s = quote_list(l) + rest;
    if l.len() == 0 {
        assert(s.drop_first() =~= seq![']'] + rest);
        lemma_drop_one(']', rest);
        assert(l =~= Seq::<Seq<char>>::empty());
    } else {
        let body = quote(l[0]) + (comma_items(l.drop_first()) + (seq![']'] + rest));
        assert(s =~= seq!['['] + body);
        lemma_drop_one('[', body);
        lemma_json_string_quote(l[0], comma_items(l.drop_first()) + (seq![']'] + rest));
        lemma_list_items(l, rest);
    }
}

proof fn lemma_member_last(k: Seq<char>, vt: Seq<char>, v: JsonField)
    requires
        field_value(vt + seq!['}']) == Some((v, seq!['}'])),
        vt.len() > 0,
        vt[0] == '"' || vt[0] == '[',
    ensures
        members(quote(k) + (seq![':'] + (vt + seq!['}']))) == Some(seq![(k, v)]),
{
    let r1 = seq![':'] + (vt + seq!['}']);
    lemma_json_string_quote(k, r1);
    lemma_drop_one(':', vt + seq!['}']);
    lemma_drop_one('}', Seq::<char>::empty());
    assert(seq!['}'] =~= seq!['}'] + Seq::<char>::empty());
}

proof fn lemma_member_more(k: Seq<char>, vt: Seq<char>, v: JsonField, rest: Seq<char>)
    requires
        field_value(vt + (seq![','] + rest)) == Some((v, seq![','] + rest)),
        vt.len() > 0,
        vt[0] == '"' || vt[0] == '[',
        rest.len() > 0,
        rest[0] == '"',
    ensures
        members(quote(k) + (seq![':'] + (vt + (seq![','] + rest)))) == match members(rest) {
            Some(ms) => Some(seq![(k, v)] + ms),
            None => None,
        },
{
    let r1 = seq![':'] + (vt + (seq![','] + rest));
    lemma_json_string_quote(k, r1);
    lemma_drop_one(':', vt + (seq![','] + rest));
    lemma_drop_one(',', rest);
}

proof fn lemma_keys_differ()
    ensures
        "messageType"@ != "dataArray"@,
        "messageType"@ != "data"@,
        "dataArray"@ != "data"@,
        "messageType"@.len() > 0,
{
    reveal_strlit("messageType");
    reveal_strlit("dataArray");
    reveal_strlit("data");
    assert("messageType"@.len() == 11);
    assert("dataArray"@.len() == 9);
    assert("data"@.len() == 4);
}

proof fn lemma_kind_of_tag(k: MsgTypes)
    ensures
        kind_of_tag(kind_tag(k)) == Some(k),
{
    assert(kind_tag(MsgTypes::Users).len() == 5);
    assert(kind_tag(MsgTypes::Register).len() == 8);
    assert(kind_tag(MsgTypes::Message).len() == 7);
}

/// The members that the encoder writes for an envelope, in order.
pub open spec fn encoded_members(e: EnvelopeView) -> Seq<(Seq<char>, JsonField)> {
    seq![("messageType"@, JsonField::Text(kind_tag(e.kind)))] + match e.list {
        Some(l) => seq![("dataArray"@, JsonField::List(l))],
        None => Seq::empty(),
    } + match e.payload {
        Some(p) => seq![("data"@, JsonField::Text(p))],
        None => Seq::empty(),
    }
}

#[verifier::rlimit(60)]
proof fn lemma_parse_encoded(e: EnvelopeView)
    ensures
        parse_object(encode_spec(e)) == Some(encoded_members(e)),
{
    let mt = "messageType"@;
    let da = "dataArray"@;
    let dk = "data"@;
    let tag = quote(kind_tag(e.kind));
    let tail = match e.payload {
        Some(p) => seq![','] + (quote(dk) + (seq![':'] + (quote(p) + seq!['}']))),
        None => seq!['}'],
    };
    let mid = match e.list {
        Some(l) => seq![','] + (quote(da) + (seq![':'] + (quote_list(l) + tail))),
        None => tail,
    };
    let u = quote(mt) + (seq![':'] + (tag + mid));
    let s = seq!['{'] + u;
    assert(encode_spec(e) =~= s);
    lemma_keys_differ();
    lemma_kind_of_tag(e.kind);
    lemma_drop_one('{', u);
    lemma_json_string_quote(mt, seq![':'] + (tag + mid));
    lemma_json_string_quote(kind_tag(e.kind), mid);
    let empty = RawFields { kind: None, list: None, payload: None };
    let f1 = (mt, JsonField::Text(kind_tag(e.kind)));
    // members of the payload part, if any
    let pm = match e.payload {
        Some(p) => seq![(dk, JsonField::Text(p))],
        None => Seq::empty(),
    };
    match e.payload {
        Some(p) => {
            let dtail = quote(dk) + (seq![':'] + (quote(p) + seq!['}']));
            lemma_json_string_quote(dk, seq![':'] + (quote(p) + seq!['}']));
            lemma_json_string_quote(p, seq!['}']);
            lemma_field_text(p, seq!['}']);
            lemma_member_last(dk, quote(p), JsonField::Text(p));
            assert(members(dtail) == Some(pm));
        },
        None => {},
    }
    let lm = match e.list {
        Some(l) => seq![(da, JsonField::List(l))],
        None => Seq::empty(),
    };
    match e.list {
        Some(l) => {
            let ltail = quote(da) + (seq![':'] + (quote_list(l) + tail));
            lemma_json_string_quote(da, seq![':'] + (quote_list(l) + tail));
            lemma_drop_one(',', ltail);
            match e.payload {
                Some(p) => {
                    let dtail = quote(dk) + (seq![':'] + (quote(p) + seq!['}']));
                    lemma_field_list(l, tail);
                    lemma_member_more(da, quote_list(l), JsonField::List(l), dtail);
                    assert(members(ltail) == Some(lm + pm));
                },
                None => {
                    lemma_field_list(l, seq!['}']);
                    lemma_member_last(da, quote_list(l), JsonField::List(l));
                    assert(lm + pm =~= lm);
                    assert(members(ltail) == Some(lm + pm));
                },
            }
        },
        None => {},
    }
    let all = seq![f1] + (lm + pm);
    match (e.list, e.payload) {
        (None, None) => {
            lemma_field_text(kind_tag(e.kind), seq!['}']);
            lemma_member_last(mt, tag, JsonField::Text(kind_tag(e.kind)));
            assert(all =~= seq![f1]);
        },
        (Some(l), _) => {
            let ltail = quote(da) + (seq![':'] + (quote_list(l) + tail));
            lemma_drop_one(',', ltail);
            lemma_field_text(kind_tag(e.kind), mid);
            lemma_member_more(mt, tag, JsonField::Text(kind_tag(e.kind)), ltail);
        },
        (None, Some(p)) => {
            let dtail = quote(dk) + (seq![':'] + (quote(p) + seq!['}']));
            lemma_drop_one(',', dtail);
            lemma_field_text(kind_tag(e.kind), mid);
            lemma_member_more(mt, tag, JsonField::Text(kind_tag(e.kind)), dtail);
            assert(lm + pm =~= pm);
        },
    }
    assert(members(u) == Some(all));
    assert(parse_object(s) == Some(all));
    assert(all =~= encoded_members(e));
}

proof fn lemma_fold_encoded(e: EnvelopeView)
    ensures
        fold_fields(encoded_members(e)) == Some(RawFields {
            kind: Some(kind_tag(e.kind)),
            list: match e.list { Some(l) => Some(Some(l)), None => None },
            payload: match e.payload { Some(p) => Some(Some(p)), None => None },
        }),
{
    let mt = "messageType"@;
    let da = "dataArray"@;
    let dk = "data"@;
    lemma_keys_differ();
    let all = encoded_members(e);
    let tag = kind_tag(e.kind);
    let f1 = (mt, JsonField::Text(tag));
    let empty = RawFields { kind: None, list: None, payload: None };
    let a1 = RawFields { kind: Some(tag), list: None, payload: None };
    assert(fold_fields(Seq::<(Seq<char>, JsonField)>::empty()) == Some(empty));
    assert(seq![f1].drop_last() =~= Seq::<(Seq<char>, JsonField)>::empty());
    assert(absorb(empty, f1) == Some(a1));
    assert(fold_fields(seq![f1]) == Some(a1));
    match (e.list, e.payload) {
        (None, None) => {
            assert(all =~= seq![f1]);
        },
        (Some(l), None) => {
            let f2 = (da, JsonField::List(l));
            let a2 = RawFields { kind: Some(tag), list: Some(Some(l)), payload: None };
            assert(all =~= seq![f1, f2]);
            assert(seq![f1, f2].drop_last() =~= seq![f1]);
            assert(absorb(a1, f2) == Some(a2));
        },
        (None, Some(p)) => {
            let f2 = (dk, JsonField::Text(p));
            let a2 = RawFields { kind: Some(tag), list: None, payload: Some(Some(p)) };
            assert(all =~= seq![f1, f2]);
            assert(seq![f1, f2].drop_last() =~= seq![f1]);
            assert(absorb(a1, f2) == Some(a2));
        },
        (Some(l), Some(p)) => {
            let f2 = (da, JsonField::List(l));
            let f3 = (dk, JsonField::Text(p));
            let a2 = RawFields { kind: Some(tag), list: Some(Some(l)), payload: None };
            let a3 = RawFields { kind: Some(tag), list: Some(Some(l)), payload: Some(Some(p)) };
            assert(all =~= seq![f1, f2, f3]);
            assert(seq![f1, f2].drop_last() =~= seq![f1]);
            assert(seq![f1, f2, f3].drop_last() =~= seq![f1, f2]);
            assert(absorb(a1, f2) == Some(a2));
            assert(fold_fields(seq![f1, f2]) == Some(a2));
            assert(absorb(a2, f3) == Some(a3));
        },
    }
}

/// Decoding the text that `encode` writes for an envelope gives that envelope back.
pub proof fn lemma_decode_encode(e: EnvelopeView)
    ensures
        decode_spec(encode_spec(e)) == Ok::<EnvelopeView, DecodeError>(e),
{
    lemma_parse_encoded(e);
    lemma_fold_encoded(e);
    lemma_kind_of_tag(e.kind);
}

/// After two `Users` events in a row the roster is built from the second
/// list alone, whatever it held before.
pub proof fn lemma_roster_replaced(st: ChatState, first: Seq<Seq<char>>, second: Seq<Seq<char>>, p1: Option<Seq<char>>, p2: Option<Seq<char>>)
    ensures
        ({
            let e1 = EnvelopeView { kind: MsgTypes::Users, list: Some(first), payload: p1 };
            let e2 = EnvelopeView { kind: MsgTypes::Users, list: Some(second), payload: p2 };
            apply_spec(apply_spec(st, e1).0, e2).0.roster == profiles_of(second)
        }),
{
}

/// The state after a sequence of envelopes, applied in order.
pub open spec fn apply_all(st: ChatState, es: Seq<EnvelopeView>) -> ChatState
    decreases es.len(),
{
    if es.len() == 0 {
        st
    } else {
        apply_spec(apply_all(st, es.drop_last()), es.last()).0
    }
}

/// The chat messages that the `Message` envelopes of `es` carry, in order.
pub open spec fn messages_in(es: Seq<EnvelopeView>) -> Seq<(Seq<char>, Seq<char>)>
    decreases es.len(),
{
    if es.len() == 0 {
        Seq::empty()
    } else {
        let e = es.last();
        let before = messages_in(es.drop_last());
        if e.kind == MsgTypes::Message && e.payload is Some && chat_message_spec(e.payload->0) is Some {
            before.push(chat_message_spec(e.payload->0)->0)
        } else {
            before
        }
    }
}

/// How many envelopes of `es` are `Message` envelopes.
pub open spec fn message_count(es: Seq<EnvelopeView>) -> nat
    decreases es.len(),
{
    if es.len() == 0 {
        0
    } else {
        message_count(es.drop_last()) + if es.last().kind == MsgTypes::Message { 1nat } else { 0nat }
    }
}

/// The transcript only grows: whatever the envelopes and their interleaving,
/// it ends as the old transcript followed by the messages carried, in
/// arrival order; when every `Message` envelope carries a readable chat
/// message, it grows by exactly their number.
pub proof fn lemma_transcript_append_only(st: ChatState, es: Seq<EnvelopeView>)
    ensures
        apply_all(st, es).transcript == st.transcript + messages_in(es),
        (forall|i: int| 0 <= i < es.len() && es[i].kind == MsgTypes::Message ==> es[i].payload is Some
            && chat_message_spec(es[i].payload->0) is Some) ==> messages_in(es).len() == message_count(es),
    decreases es.len(),
{
    if es.len() == 0 {
        assert(st.transcript + Seq::<(Seq<char>, Seq<char>)>::empty() =~= st.transcript);
    } else {
        let d = es.drop_last();
        lemma_transcript_append_only(st, d);
        let e = es.last();
        if e.kind == MsgTypes::Message && e.payload is Some && chat_message_spec(e.payload->0) is Some {
            assert(st.transcript + messages_in(d).push(chat_message_spec(e.payload->0)->0) =~= (st.transcript
                + messages_in(d)).push(chat_message_spec(e.payload->0)->0));
        }
        if forall|i: int| 0 <= i < es.len() && es[i].kind == MsgTypes::Message ==> es[i].payload is Some
            && chat_message_spec(es[i].payload->0) is Some {
            assert forall|i: int| 0 <= i < d.len() && d[i].kind == MsgTypes::Message implies d[i].payload is Some
                && chat_message_spec(d[i].payload->0) is Some by {
                assert(d[i] == es[i]);
            }
            assert(es[es.len() - 1] == e);
        }
    }
}

/// The state after a sequence of inbound frames, handled in order.
pub open spec fn handle_all(st: ChatState, frames: Seq<Seq<char>>) -> ChatState
    decreases frames.len(),
{
    if frames.len() == 0 {
        st
    } else {
        handle_spec(handle_all(st, frames.drop_last()), frames.last()).0
    }
}

/// Whether `f` decodes to a `Message` envelope.
pub open spec fn is_message_frame(f: Seq<char>) -> bool {
    decode_spec(f) is Ok && decode_spec(f)->Ok_0.kind == MsgTypes::Message
}

/// The chat message that a frame carries, if it is a `Message` frame with a
/// readable one.
pub open spec fn carried_message(f: Seq<char>) -> Option<(Seq<char>, Seq<char>)> {
    if is_message_frame(f) && decode_spec(f)->Ok_0.payload is Some {
        chat_message_spec(decode_spec(f)->Ok_0.payload->0)
    } else {
        None
    }
}

/// The chat messages that `frames` carry, in order.
pub open spec fn frame_messages(frames: Seq<Seq<char>>) -> Seq<(Seq<char>, Seq<char>)>
    decreases frames.len(),
{
    if frames.len() == 0 {
        Seq::empty()
    } else {
        match carried_message(frames.last()) {
            Some(m) => frame_messages(frames.drop_last()).push(m),
            None => frame_messages(frames.drop_last()),
        }
    }
}

/// How many of `frames` are `Message` frames.
pub open spec fn message_frame_count(frames: Seq<Seq<char>>) -> nat
    decreases frames.len(),
{
    if frames.len() == 0 {
        0
    } else {
        message_frame_count(frames.drop_last()) + if is_message_frame(frames.last()) { 1nat } else { 0nat }
    }
}

/// Over raw frames, whatever they are and however `Users` frames are
/// interleaved, the transcript ends as the old one followed by the chat
/// messages carried, in arrival order; when every `Message` frame carries a
/// readable chat message, it grows by exactly the number of `Message` frames.
pub proof fn lemma_frames_append_only(st: ChatState, frames: Seq<Seq<char>>)
    ensures
        handle_all(st, frames).transcript == st.transcript + frame_messages(frames),
        (forall|i: int| 0 <= i < frames.len() && is_message_frame(#[trigger] frames[i]) ==> carried_message(frames[i]) is Some)
            ==> frame_messages(frames).len() == message_frame_count(frames),
    decreases frames.len(),
{
    if frames.len() == 0 {
        assert(st.transcript + Seq::<(Seq<char>, Seq<char>)>::empty() =~= st.transcript);
    } else {
        let d = frames.drop_last();
        let f = frames.last();
        lemma_frames_append_only(st, d);
        match carried_message(f) {
            Some(m) => {
                assert(st.transcript + frame_messages(d).push(m) =~= (st.transcript + frame_messages(d)).push(m));
            },
            None => {},
        }
        if forall|i: int| 0 <= i < frames.len() && is_message_frame(#[trigger] frames[i]) ==> carried_message(frames[i]) is Some {
            assert forall|i: int| 0 <= i < d.len() && is_message_frame(#[trigger] d[i]) implies carried_message(d[i]) is Some by {
                assert(d[i] == frames[i]);
            }
            assert(frames[frames.len() - 1] == f);
        }
    }
}

/// The avatar URL is a function of the name: equal names give equal URLs.
pub proof fn lemma_avatar_deterministic(a: Seq<char>, b: Seq<char>)
    requires
        a == b,
    ensures
        avatar_spec(a) == avatar_spec(b),
{
}

/// Two subscriptions made one after the other both receive a published
/// frame, each exactly once, the earlier one first.
pub proof fn lemma_fan_out(b: BusState, frame: Seq<char>)
    requires
        bus_wf(b),
        b.next + 2 <= u64::MAX,
    ensures
        ({
            let (b1, x) = subscribe_spec(b);
            let (b2, y) = subscribe_spec(b1);
            let d = deliveries_spec(b2.subscribers, frame);
            &&& x != y
            &&& exists|i: int, j: int| 0 <= i < j < d.len() && d[i] == (x, frame) && d[j] == (y, frame)
            &&& forall|i: int, j: int| 0 <= i < d.len() && 0 <= j < d.len() && d[i].0 == x && d[j].0 == x ==> i == j
            &&& forall|i: int, j: int| 0 <= i < d.len() && 0 <= j < d.len() && d[i].0 == y && d[j].0 == y ==> i == j
        }),
{
    let (b1, x) = subscribe_spec(b);
    let (b2, y) = subscribe_spec(b1);
    let s = b2.subscribers;
    let d = deliveries_spec(s, frame);
    let n: int = b.subscribers.len() as int;
    assert(s =~= b.subscribers.push(x).push(y));
    assert(d[n] == (x, frame));
    assert(d[n + 1] == (y, frame));
    assert forall|i: int| 0 <= i < n implies s[i] < x by {
        assert(s[i] == b.subscribers[i]);
    }
    assert forall|i: int, j: int| 0 <= i < d.len() && 0 <= j < d.len() && d[i].0 == x && d[j].0 == x implies i == j by {
        assert(d[i].0 == s[i] && d[j].0 == s[j]);
    }
    assert forall|i: int, j: int| 0 <= i < d.len() && 0 <= j < d.len() && d[i].0 == y && d[j].0 == y implies i == j by {
        assert(d[i].0 == s[i] && d[j].0 == s[j]);
    }
}

/// After a subscription is released, a published frame reaches it no more.
pub proof fn lemma_unsubscribe_takes_effect(b: BusState, id: u64, frame: Seq<char>)
    requires
        bus_wf(b),
    ensures
        forall|i: int| 0 <= i < deliveries_spec(without(b.subscribers, id), frame).len() ==>
            (#[trigger] deliveries_spec(without(b.subscribers, id), frame)[i]).0 != id,
{
    lemma_without_from(b.subscribers, id);
}

} // verus!
