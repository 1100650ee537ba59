//! The messages that the server sends: the envelope that every mailbox
//! carries, and the builders of the replies the protocol makes.

use vstd::prelude::*;
use crate::names::{agent_id, agent_id_of};

verus! {

/// What a reply or a pushed event carries as its `response`.
#[derive(Clone, Debug)]
pub enum Response {
    Join { id: String },
    Heartbeat {},
    Datetime { datetime: String, counter: u32 },
    Message { message: String },
    Empty {},
}

/// A `{status, response}` payload.
#[derive(Clone, Debug)]
pub struct ServerResponse {
    pub status: String,
    pub response: Response,
}

/// The payload of a server frame: a status reply, or a JSON value given as
/// its text and forwarded as it is.
#[derive(Clone, Debug)]
pub enum ServerPayload {
    ServerResponse(ServerResponse),
    ServerJsonValue(String),
}

/// The 5-field frame `[join_ref, event_ref, topic, event, payload]`.
#[derive(Clone, Debug)]
pub struct ServerMessage {
    pub join_ref: Option<String>,
    pub event_ref: String,
    pub topic: String,
    pub event: String,
    pub payload: ServerPayload,
}

/// The envelope that every mailbox carries.
#[derive(Clone, Debug)]
pub enum ChannelMessage {
    Reply(ServerMessage),
}

/// The view of an optional string.
pub open spec fn opt_view(o: Option<String>) -> Option<Seq<char>> {
    match o {
        Some(s) => Some(s@),
        None => None,
    }
}

/// The response of an `ok` reply: empty for a heartbeat (no join reference),
/// the agent id for a join or a leave.
pub open spec fn reply_response_ok(
    r: Response,
    conn: Seq<char>,
    join_ref: Option<Seq<char>>,
    channel: Seq<char>,
) -> bool {
    match join_ref {
        None => r is Empty,
        Some(j) => r is Join && r->Join_id@ == agent_id_of(conn, channel, j),
    }
}

/// The `phx_reply` frame with status `ok` that answers a heartbeat, a join
/// or a leave on connection `conn_id`.
pub fn ok_reply(conn_id: &str, join_ref: Option<String>, event_ref: &str, channel_name: &str) -> (r: ServerMessage)
    ensures
        opt_view(r.join_ref) == opt_view(join_ref),
        r.event_ref@ == event_ref@,
        r.topic@ == channel_name@,
        r.event@ == "phx_reply"@,
        r.payload is ServerResponse,
        r.payload->ServerResponse_0.status@ == "ok"@,
        reply_response_ok(r.payload->ServerResponse_0.response, conn_id@, opt_view(join_ref), channel_name@),
{
    let response = match &join_ref {
        None => Response::Empty {},
        Some(j) => Response::Join { id: agent_id(conn_id, channel_name, j.as_str()) },
    };
    ServerMessage {
        join_ref: join_ref,
        event_ref: event_ref.to_owned(),
        topic: channel_name.to_owned(),
        event: "phx_reply".to_owned(),
        payload: ServerPayload::ServerResponse(ServerResponse { status: "ok".to_owned(), response }),
    }
}

/// The frame that a relay task forwards: the same frame with the join
/// reference of the join that the relay serves.
pub fn relay_message(message: ChannelMessage, join_ref: Option<String>) -> (r: ChannelMessage)
    ensures
        opt_view(r->Reply_0.join_ref) == opt_view(join_ref),
        r->Reply_0.event_ref == message->Reply_0.event_ref,
        r->Reply_0.topic == message->Reply_0.topic,
        r->Reply_0.event == message->Reply_0.event,
        r->Reply_0.payload == message->Reply_0.payload,
{
    let ChannelMessage::Reply(m) = message;
    ChannelMessage::Reply(ServerMessage { join_ref, ..m })
}

} // verus!
