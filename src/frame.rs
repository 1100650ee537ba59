//! The wire codec: a frame is the JSON array
//! `[join_ref, event_ref, topic, event, payload]`.

use vstd::prelude::*;
use crate::json::{
    array_items, decimal, decimal_text, json_array_items, json_object_entries, json_quoted,
    json_string_or_null, object_entries, quote, string_or_null,
};
use crate::message::{Response, ServerMessage, ServerPayload, ServerResponse};

verus! {

/// The payload of an inbound frame, told apart by its shape.
#[derive(Debug, Clone, PartialEq, Eq)]
pub enum RequestPayload {
    /// `{"token": <string>}`, carried on `phx_join`
    Join { token: String },
    /// `{"message": <string>}`, carried on `message` events
    Message { message: String },
    /// any other JSON value, given as its text
    JsonValue(String),
}

/// A frame from a client.
#[derive(Debug, Clone)]
pub struct RequestMessage {
    pub join_ref: Option<String>,
    pub event_ref: String,
    pub topic: String,
    pub event: String,
    pub payload: RequestPayload,
    /// the payload's JSON text, as it stood in the frame
    pub payload_text: String,
}

/// An inbound payload, as values.
pub enum PayloadView {
    Join(Seq<char>),
    Message(Seq<char>),
    Json(Seq<char>),
}

/// An inbound frame, as values.
pub struct FrameView {
    pub join_ref: Option<Seq<char>>,
    pub event_ref: Seq<char>,
    pub topic: Seq<char>,
    pub event: Seq<char>,
    pub payload: PayloadView,
    pub payload_text: Seq<char>,
}

impl View for RequestPayload {
    type V = PayloadView;

    open spec fn view(&self) -> PayloadView {
        match self {
            RequestPayload::Join { token } => PayloadView::Join(token@),
            RequestPayload::Message { message } => PayloadView::Message(message@),
            RequestPayload::JsonValue(t) => PayloadView::Json(t@),
        }
    }
}

impl View for RequestMessage {
    type V = FrameView;

    open spec fn view(&self) -> FrameView {
        FrameView {
            join_ref: match self.join_ref {
                Some(j) => Some(j@),
                None => None,
            },
            event_ref: self.event_ref@,
            topic: self.topic@,
            event: self.event@,
            payload: self.payload@,
            payload_text: self.payload_text@,
        }
    }
}

/// The string that the JSON text `text` holds, where it is a string.
pub open spec fn json_string(text: Seq<char>) -> Option<Seq<char>> {
    match json_string_or_null(text) {
        Some(Some(s)) => Some(s),
        _ => None,
    }
}

/// The value of the first entry with key `key`.
pub open spec fn entry_value(entries: Seq<(Seq<char>, Seq<char>)>, key: Seq<char>) -> Option<Seq<char>>
    decreases entries.len(),
{
    if entries.len() == 0 {
        None
    } else if entries[0].0 == key {
        Some(entries[0].1)
    } else {
        entry_value(entries.drop_first(), key)
    }
}

/// The string under `key` in the JSON object `text`, where there is one.
pub open spec fn string_entry(text: Seq<char>, key: Seq<char>) -> Option<Seq<char>> {
    match json_object_entries(text) {
        Some(entries) => match entry_value(entries, key) {
            Some(v) => json_string(v),
            None => None,
        },
        None => None,
    }
}

/// How a payload is read: an object with a string `token` is a join's, else
/// an object with a string `message` is a message's, else it is kept as JSON.
pub open spec fn payload_of(text: Seq<char>) -> PayloadView {
    match string_entry(text, "token"@) {
        Some(t) => PayloadView::Join(t),
        None => match string_entry(text, "message"@) {
            Some(m) => PayloadView::Message(m),
            None => PayloadView::Json(text),
        },
    }
}

/// What a text decodes to: a JSON array of exactly five items, the first a
/// string or `null`, the next three strings, the last any JSON value.
pub open spec fn frame_of(text: Seq<char>) -> Option<FrameView> {
    match json_array_items(text) {
        Some(items) => if items.len() == 5 && json_string_or_null(items[0]) is Some
            && json_string(items[1]) is Some && json_string(items[2]) is Some
            && json_string(items[3]) is Some {
            Some(FrameView {
                join_ref: json_string_or_null(items[0])->Some_0,
                event_ref: json_string(items[1])->Some_0,
                topic: json_string(items[2])->Some_0,
                event: json_string(items[3])->Some_0,
                payload: payload_of(items[4]),
                payload_text: items[4],
            })
        } else {
            None
        },
        None => None,
    }
}

pub(crate) fn string_item(text: &str) -> (r: Option<String>)
    ensures
        match r {
            Some(s) => json_string(text@) == Some(s@),
            None => json_string(text@) is None,
        },
{
    match string_or_null(text) {
        Some(Some(s)) => Some(s),
        _ => None,
    }
}

pub(crate) fn find_entry(entries: &Vec<(String, String)>, key: &str) -> (r: Option<String>)
    ensures
        match r {
            Some(v) => entry_value(crate::json::pair_views(entries@), key@) == Some(v@),
            None => entry_value(crate::json::pair_views(entries@), key@) is None,
        },
{
    let k = key.to_owned();
    let ghost all = crate::json::pair_views(entries@);
    let mut i: usize = 0;
    assert(all.skip(0) =~= all);
    while i < entries.len()
        invariant
            i <= entries@.len(),
            k@ == key@,
            all == crate::json::pair_views(entries@),
            entry_value(all, key@) == entry_value(all.skip(i as int), key@),
        decreases entries@.len() - i,
    {
        proof {
            assert(all.skip(i as int)[0] == (entries@[i as int].0@, entries@[i as int].1@));
            assert(all.skip(i as int).drop_first() =~= all.skip(i + 1));
        }
        if entries[i].0 == k {
            return Some(entries[i].1.clone());
        }
        i = i + 1;
    }
    assert(all.skip(i as int).len() == 0);
    None
}

fn string_entry_of(text: &str, key: &str) -> (r: Option<String>)
    ensures
        match r {
            Some(s) => string_entry(text@, key@) == Some(s@),
            None => string_entry(text@, key@) is None,
        },
{
    match object_entries(text) {
        Some(entries) => match find_entry(&entries, key) {
            Some(v) => string_item(v.as_str()),
            None => None,
        },
        None => None,
    }
}

/// Reads a payload by its shape.
pub fn decode_payload(text: &str) -> (r: RequestPayload)
    ensures
        r@ == payload_of(text@),
{
    match string_entry_of(text, "token") {
        Some(token) => RequestPayload::Join { token },
        None => match string_entry_of(text, "message") {
            Some(message) => RequestPayload::Message { message },
            None => RequestPayload::JsonValue(text.to_owned()),
        },
    }
}

/// Decodes an inbound frame; `None` where it is malformed.
pub fn decode_frame(text: &str) -> (r: Option<RequestMessage>)
    ensures
        match r {
            Some(m) => frame_of(text@) == Some(m@),
            None => frame_of(text@) is None,
        },
{
    let items = match array_items(text) {
        Some(items) => items,
        None => return None,
    };
    if items.len() != 5 {
        return None;
    }
    proof {
        assert(items@[0]@ == crate::channel::views(items@)[0]);
        assert(items@[1]@ == crate::channel::views(items@)[1]);
        assert(items@[2]@ == crate::channel::views(items@)[2]);
        assert(items@[3]@ == crate::channel::views(items@)[3]);
        assert(items@[4]@ == crate::channel::views(items@)[4]);
    }
    let join_ref = match string_or_null(items[0].as_str()) {
        Some(j) => j,
        None => return None,
    };
    let event_ref = match string_item(items[1].as_str()) {
        Some(s) => s,
        None => return None,
    };
    let topic = match string_item(items[2].as_str()) {
        Some(s) => s,
        None => return None,
    };
    let event = match string_item(items[3].as_str()) {
        Some(s) => s,
        None => return None,
    };
    let payload = decode_payload(items[4].as_str());
    let payload_text = items[4].clone();
    let m = RequestMessage { join_ref, event_ref, topic, event, payload, payload_text };
    proof {
        assert(frame_of(text@) == Some(m@));
    }
    Some(m)
}

/// The JSON text of a response, as serde prints an untagged enum: the
/// variant's fields as an object.
pub open spec fn response_text(r: Response) -> Seq<char> {
    match r {
        Response::Join { id } => "{\"id\":"@ + json_quoted(id@) + "}"@,
        Response::Heartbeat {  } => "{}"@,
        Response::Datetime { datetime, counter } => "{\"datetime\":"@ + json_quoted(datetime@) + ",\"counter\":"@
            + decimal(counter as nat) + "}"@,
        Response::Message { message } => "{\"message\":"@ + json_quoted(message@) + "}"@,
        Response::Empty {  } => "{}"@,
    }
}

/// The JSON text of a payload: `{"status":..,"response":..}`, or the JSON
/// value as it is.
pub open spec fn payload_text(p: ServerPayload) -> Seq<char> {
    match p {
        ServerPayload::ServerResponse(r) => "{\"status\":"@ + json_quoted(r.status@) + ",\"response\":"@
            + response_text(r.response) + "}"@,
        ServerPayload::ServerJsonValue(t) => t@,
    }
}

/// The JSON text of a join reference: a string, or `null`.
pub open spec fn join_ref_text(j: Option<String>) -> Seq<char> {
    match j {
        Some(j) => json_quoted(j@),
        None => "null"@,
    }
}

/// The wire text of a server frame.
pub open spec fn frame_text(m: ServerMessage) -> Seq<char> {
    "["@ + join_ref_text(m.join_ref) + ","@ + json_quoted(m.event_ref@) + ","@ + json_quoted(m.topic@) + ","@
        + json_quoted(m.event@) + ","@ + payload_text(m.payload) + "]"@
}

fn encode_response(r: &Response) -> (t: String)
    ensures
        t@ == response_text(*r),
{
    match r {
        Response::Join { id } => "{\"id\":".to_owned().concat(quote(id.as_str()).as_str()).concat("}"),
        Response::Heartbeat {  } => "{}".to_owned(),
        Response::Datetime { datetime, counter } => "{\"datetime\":".to_owned().concat(
            quote(datetime.as_str()).as_str(),
        ).concat(",\"counter\":").concat(decimal_text(*counter).as_str()).concat("}"),
        Response::Message { message } => "{\"message\":".to_owned().concat(quote(message.as_str()).as_str()).concat(
            "}",
        ),
        Response::Empty {  } => "{}".to_owned(),
    }
}

/// The JSON text of a payload.
pub fn encode_payload(p: &ServerPayload) -> (t: String)
    ensures
        t@ == payload_text(*p),
{
    match p {
        ServerPayload::ServerResponse(r) => "{\"status\":".to_owned().concat(quote(r.status.as_str()).as_str()).concat(
            ",\"response\":",
        ).concat(encode_response(&r.response).as_str()).concat("}"),
        ServerPayload::ServerJsonValue(t) => t.clone(),
    }
}

/// Encodes a server frame for the wire.
pub fn encode_frame(m: &ServerMessage) -> (t: String)
    ensures
        t@ == frame_text(*m),
{
    let join_ref = match &m.join_ref {
        Some(j) => quote(j.as_str()),
        None => "null".to_owned(),
    };
    "[".to_owned().concat(join_ref.as_str()).concat(",").concat(quote(m.event_ref.as_str()).as_str()).concat(
        ",",
    ).concat(quote(m.topic.as_str()).as_str()).concat(",").concat(quote(m.event.as_str()).as_str()).concat(
        ",",
    ).concat(encode_payload(&m.payload).as_str()).concat("]")
}

} // verus!
