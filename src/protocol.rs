//! The wire envelope: its kinds, its fields and its canonical text form.
use vstd::prelude::*;
use crate::text::{chars_of, string_of_chars};

verus! {

/// The kind tag of an envelope.
#[derive(Debug, Clone, Copy, PartialEq, Eq, Structural)]
pub enum MsgTypes {
    Users,
    Register,
    Message,
}

/// The wire unit exchanged over the transport.
#[derive(Debug)]
pub struct WebSocketMessage {
    pub message_type: MsgTypes,
    pub data_array: Option<Vec<String>>,
    pub data: Option<String>,
}

/// The mathematical value of an envelope.
pub struct EnvelopeView {
    pub kind: MsgTypes,
    pub list: Option<Seq<Seq<char>>>,
    pub payload: Option<Seq<char>>,
}

impl View for WebSocketMessage {
    type V = EnvelopeView;

    open spec fn view(&self) -> EnvelopeView {
        EnvelopeView {
            kind: self.message_type,
            list: match self.data_array {
                Some(v) => Some(v.deep_view()),
                None => None,
            },
            payload: match self.data {
                Some(d) => Some(d@),
                None => None,
            },
        }
    }
}

/// The nested payload of a `Message` envelope.
#[derive(Debug)]
pub struct MessageData {
    pub from: String,
    pub message: String,
}

impl View for MessageData {
    type V = (Seq<char>, Seq<char>);

    open spec fn view(&self) -> (Seq<char>, Seq<char>) {
        (self.from@, self.message@)
    }
}

/// Why a frame could not be decoded.
#[derive(Debug, Clone, Copy, PartialEq, Eq, Structural)]
pub enum DecodeError {
    /// The text is not a well-formed envelope.
    Malformed,
    /// A well-formed envelope whose kind tag is not one of the three known ones.
    UnknownKind,
    /// The envelope is well formed but its nested chat message is not.
    NestedPayloadInvalid,
}

/// The lowercase wire token of a kind.
pub open spec fn kind_tag(k: MsgTypes) -> Seq<char> {
    match k {
        MsgTypes::Users => seq!['u', 's', 'e', 'r', 's'],
        MsgTypes::Register => seq!['r', 'e', 'g', 'i', 's', 't', 'e', 'r'],
        MsgTypes::Message => seq!['m', 'e', 's', 's', 'a', 'g', 'e'],
    }
}

pub open spec fn hex_digit(n: u8) -> char {
    if n < 10 {
        ((n + 48) as u8) as char
    } else {
        ((n + 87) as u8) as char
    }
}

/// The JSON escape of one character inside a string literal.
pub open spec fn escape_char(c: char) -> Seq<char> {
    if c == '"' {
        seq!['\\', '"']
    } else if c == '\\' {
        seq!['\\', '\\']
    } else if c == '\n' {
        seq!['\\', 'n']
    } else if c == '\r' {
        seq!['\\', 'r']
    } else if c == '\t' {
        seq!['\\', 't']
    } else if c == '\x08' {
        seq!['\\', 'b']
    } else if c == '\x0c' {
        seq!['\\', 'f']
    } else if (c as u32) < 0x20 {
        seq!['\\', 'u', '0', '0', hex_digit(((c as u32) / 16) as u8), hex_digit(((c as u32) % 16) as u8)]
    } else {
        seq![c]
    }
}

/// The escaped body of a JSON string literal holding `s`.
pub open spec fn escape(s: Seq<char>) -> Seq<char>
    decreases s.len(),
{
    if s.len() == 0 {
        Seq::empty()
    } else {
        escape_char(s[0]) + escape(s.drop_first())
    }
}

/// The JSON string literal holding `s`.
pub open spec fn quote(s: Seq<char>) -> Seq<char> {
    seq!['"'] + escape(s) + seq!['"']
}

pub proof fn lemma_escape_concat(a: Seq<char>, b: Seq<char>)
    ensures
        escape(a + b) == escape(a) + escape(b),
    decreases a.len(),
{
    if a.len() == 0 {
        assert(a + b =~= b);
    } else {
        assert((a + b).drop_first() =~= a.drop_first() + b);
        lemma_escape_concat(a.drop_first(), b);
    }
}

pub proof fn lemma_escape_one(c: char)
    ensures
        escape(seq![c]) == escape_char(c),
{
    assert(seq![c].drop_first() =~= Seq::<char>::empty());
    assert(escape(Seq::<char>::empty()) == Seq::<char>::empty());
    assert(escape_char(c) + Seq::<char>::empty() =~= escape_char(c));
}

/// Each item quoted and preceded by a comma.
pub open spec fn comma_items(l: Seq<Seq<char>>) -> Seq<char>
    decreases l.len(),
{
    if l.len() == 0 {
        Seq::empty()
    } else {
        seq![','] + quote(l[0]) + comma_items(l.drop_first())
    }
}

/// A JSON array of string literals.
pub open spec fn quote_list(l: Seq<Seq<char>>) -> Seq<char> {
    if l.len() == 0 {
        seq!['[', ']']
    } else {
        seq!['['] + quote(l[0]) + comma_items(l.drop_first()) + seq![']']
    }
}

/// A member `"key":value` of a JSON object.
pub open spec fn member(key: Seq<char>, value: Seq<char>) -> Seq<char> {
    quote(key) + seq![':'] + value
}

/// The canonical text of an envelope: the kind first, then the list and the
/// payload, each only when present.
pub open spec fn encode_spec(e: EnvelopeView) -> Seq<char> {
    seq!['{'] + member("messageType"@, quote(kind_tag(e.kind))) + match e.list {
        Some(l) => seq![','] + member("dataArray"@, quote_list(l)),
        None => Seq::empty(),
    } + match e.payload {
        Some(p) => seq![','] + member("data"@, quote(p)),
        None => Seq::empty(),
    } + seq!['}']
}

fn hex_digit_exec(n: u8) -> (r: char)
    requires
        n < 16,
    ensures
        r == hex_digit(n),
{
    if n < 10 {
        (n + 48) as char
    } else {
        (n + 87) as char
    }
}

fn push_escaped_char(out: &mut Vec<char>, c: char)
    ensures
        final(out)@ == old(out)@ + escape_char(c),
{
    if c == '"' {
        out.push('\\');
        out.push('"');
    } else if c == '\\' {
        out.push('\\');
        out.push('\\');
    } else if c == '\n' {
        out.push('\\');
        out.push('n');
    } else if c == '\r' {
        out.push('\\');
        out.push('r');
    } else if c == '\t' {
        out.push('\\');
        out.push('t');
    } else if c == '\x08' {
        out.push('\\');
        out.push('b');
    } else if c == '\x0c' {
        out.push('\\');
        out.push('f');
    } else if (c as u32) < 0x20 {
        let code = c as u32;
        out.push('\\');
        out.push('u');
        out.push('0');
        out.push('0');
        out.push(hex_digit_exec((code / 16) as u8));
        out.push(hex_digit_exec((code % 16) as u8));
    } else {
        out.push(c);
    }
    assert(final(out)@ =~= old(out)@ + escape_char(c));
}

/// Appends the JSON string literal of `s` to `out`.
pub(crate) fn push_quoted(out: &mut Vec<char>, s: &Vec<char>)
    ensures
        final(out)@ == old(out)@ + quote(s@),
{
    out.push('"');
    let mut i: usize = 0;
    while i < s.len()
        invariant
            i <= s@.len(),
            out@ == old(out)@ + seq!['"'] + escape(s@.subrange(0, i as int)),
        decreases s@.len() - i,
    {
        proof {
            assert(s@.subrange(0, i + 1) =~= s@.subrange(0, i as int) + seq![s@[i as int]]);
            lemma_escape_concat(s@.subrange(0, i as int), seq![s@[i as int]]);
            lemma_escape_one(s@[i as int]);
        }
        push_escaped_char(out, s[i]);
        i = i + 1;
    }
    out.push('"');
    assert(s@.subrange(0, s@.len() as int) =~= s@);
    assert(out@ =~= old(out)@ + quote(s@));
}

fn push_str_quoted(out: &mut Vec<char>, s: &str)
    ensures
        final(out)@ == old(out)@ + quote(s@),
{
    let v = chars_of(s);
    push_quoted(out, &v);
}

fn push_comma_items(out: &mut Vec<char>, l: &Vec<String>, i: usize)
    requires
        i <= l@.len(),
    ensures
        final(out)@ == old(out)@ + comma_items(l.deep_view().subrange(i as int, l@.len() as int)),
    decreases l@.len() - i,
{
    let ghost rest = l.deep_view().subrange(i as int, l@.len() as int);
    if i < l.len() {
        out.push(',');
        push_str_quoted(out, l[i].as_str());
        push_comma_items(out, l, i + 1);
        assert(rest.drop_first() =~= l.deep_view().subrange(i + 1, l@.len() as int));
        assert(final(out)@ =~= old(out)@ + comma_items(rest));
    } else {
        assert(rest =~= Seq::<Seq<char>>::empty());
        assert(final(out)@ =~= old(out)@);
    }
}

fn push_list(out: &mut Vec<char>, l: &Vec<String>)
    ensures
        final(out)@ == old(out)@ + quote_list(l.deep_view()),
{
    out.push('[');
    if l.len() > 0 {
        push_str_quoted(out, l[0].as_str());
        push_comma_items(out, l, 1);
        assert(l.deep_view().subrange(1, l@.len() as int) =~= l.deep_view().drop_first());
    }
    out.push(']');
    assert(final(out)@ =~= old(out)@ + quote_list(l.deep_view()));
}

fn kind_tag_exec(k: MsgTypes) -> (r: Vec<char>)
    ensures
        r@ == kind_tag(k),
{
    let r = match k {
        MsgTypes::Users => chars_of("users"),
        MsgTypes::Register => chars_of("register"),
        MsgTypes::Message => chars_of("message"),
    };
    proof {
        reveal_strlit("users");
        reveal_strlit("register");
        reveal_strlit("message");
    }
    assert(r@ =~= kind_tag(k));
    r
}

/// The canonical text of an envelope.
pub fn encode(e: &WebSocketMessage) -> (r: String)
    ensures
        r@ == encode_spec(e@),
{
    let mut out: Vec<char> = Vec::new();
    out.push('{');
    push_str_quoted(&mut out, "messageType");
    out.push(':');
    let tag = kind_tag_exec(e.message_type);
    push_quoted(&mut out, &tag);
    match &e.data_array {
        Some(l) => {
            out.push(',');
            push_str_quoted(&mut out, "dataArray");
            out.push(':');
            push_list(&mut out, l);
        },
        None => {},
    }
    match &e.data {
        Some(d) => {
            out.push(',');
            push_str_quoted(&mut out, "data");
            out.push(':');
            push_str_quoted(&mut out, d.as_str());
        },
        None => {},
    }
    out.push('}');
    assert(out@ =~= encode_spec(e@));
    string_of_chars(&out)
}

/// The envelope that registers `username` with the server.
pub open spec fn register_envelope(username: Seq<char>) -> EnvelopeView {
    EnvelopeView { kind: MsgTypes::Register, list: None, payload: Some(username) }
}

/// The envelope that sends `body` as a chat message.
pub open spec fn message_envelope(body: Seq<char>) -> EnvelopeView {
    EnvelopeView { kind: MsgTypes::Message, list: None, payload: Some(body) }
}

/// The frame that registers `username`.
pub fn build_register(username: &str) -> (r: String)
    ensures
        r@ == encode_spec(register_envelope(username@)),
{
    let e = WebSocketMessage { message_type: MsgTypes::Register, data_array: None, data: Some(String::from_str(username)) };
    encode(&e)
}

/// The frame that sends `body`, unchanged and possibly empty, as a chat message.
pub fn build_message(body: &str) -> (r: String)
    ensures
        r@ == encode_spec(message_envelope(body@)),
{
    let e = WebSocketMessage { message_type: MsgTypes::Message, data_array: None, data: Some(String::from_str(body)) };
    encode(&e)
}

} // verus!
