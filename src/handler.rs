//! The wire state machine: what the server does with each inbound frame.
//!
//! The decisions and the registry changes are made here; what they ask of
//! the runtime (tasks to spawn, frames to send, Redis messages to publish)
//! is handed back in order.

use vstd::prelude::*;
use tokio::sync::broadcast::{Receiver, Sender};
use crate::control::{departed, ChannelControl, ChannelError, Wiring};
use crate::frame::{frame_of, decode_frame, FrameView, PayloadView, RequestMessage, RequestPayload};
use crate::json::{decimal, decimal_text, is_json, json_quoted, json_valid, quote};
use crate::message::{ok_reply, opt_view, reply_response_ok, ChannelMessage, Response, ServerMessage, ServerPayload, ServerResponse};
use crate::names::{
    agent_id, agent_id_of, event_of_topic, from_topic, from_topic_of, is_special_channel, special_channel,
    to_topic_of,
};
use crate::presence::{join_comma, presence_diff, presence_of, Publication, PresenceAction};
use crate::channel::{joined, views};
use crate::token::{claims_id, jwt_claims, verify_token};

verus! {

/// What a join asks of the runtime: a task that forwards the channel's
/// messages into the agent's mailbox, a relay task from the agent's mailbox
/// to the connection's (rewriting `join_ref`), and maybe the channel's Redis
/// listening task.
pub struct JoinWork {
    pub agent_id: String,
    pub channel_name: String,
    pub join_ref: Option<String>,
    pub wiring: Wiring,
    pub relay_rx: Receiver<ChannelMessage>,
    pub conn_tx: Sender<ChannelMessage>,
    pub launch_listener: bool,
}

/// What a frame asks of the runtime, in order: the join's tasks (to start
/// before anything is sent), the frames for the connection, the Redis
/// publications.
pub struct Plan {
    pub join: Option<JoinWork>,
    pub replies: Vec<ServerMessage>,
    pub publications: Vec<Publication>,
}

/// The Redis publication that mirrors an inbound frame:
/// `from:<topic>:<event>`, with the frame's payload as it came.
pub fn mirror(rm: &RequestMessage) -> (r: Publication)
    ensures
        r.topic@ == from_topic_of(rm.topic@, rm.event@),
        r.message@ == rm.payload_text@,
{
    Publication { topic: from_topic(rm.topic.as_str(), rm.event.as_str()), message: rm.payload_text.clone() }
}

/// Is the frame a heartbeat: event `heartbeat` on topic `phoenix`?
pub open spec fn is_heartbeat(f: FrameView) -> bool {
    f.topic == "phoenix"@ && f.event == "heartbeat"@
}

/// The body of the heartbeat publication: the connection id.
pub open spec fn heartbeat_text(conn: Seq<char>) -> Seq<char> {
    "{\"conn_id\":"@ + json_quoted(conn) + "}"@
}

/// The publication that announces a heartbeat of connection `conn_id`, on
/// `from:phoenix:heartbeat`.
pub fn heartbeat_publication(conn_id: &str) -> (r: Publication)
    ensures
        r.topic@ == from_topic_of("phoenix"@, "heartbeat"@),
        r.message@ == heartbeat_text(conn_id@),
{
    Publication {
        topic: from_topic("phoenix", "heartbeat"),
        message: "{\"conn_id\":".to_owned().concat(quote(conn_id).as_str()).concat("}"),
    }
}

/// The answer to a heartbeat: an `ok` `phx_reply` on `phoenix`, with no join
/// reference and an empty response.
pub open spec fn is_heartbeat_reply(m: ServerMessage, f: FrameView) -> bool {
    &&& m.join_ref is None
    &&& m.event_ref@ == f.event_ref
    &&& m.topic@ == "phoenix"@
    &&& m.event@ == "phx_reply"@
    &&& m.payload is ServerResponse
    &&& m.payload->ServerResponse_0.status@ == "ok"@
    &&& m.payload->ServerResponse_0.response is Empty
}

/// The frame that tells a joining agent who is in the channel.
pub open spec fn is_presence_state(m: ServerMessage, f: FrameView, text: Seq<char>) -> bool {
    &&& opt_view(m.join_ref) == f.join_ref
    &&& m.event_ref@ == f.event_ref
    &&& m.topic@ == f.topic
    &&& m.event@ == "presence_state"@
    &&& m.payload == ServerPayload::ServerJsonValue(m.payload->ServerJsonValue_0)
    &&& m.payload->ServerJsonValue_0@ == text
}

/// An `ok` `phx_reply` to frame `f` on connection `conn`.
pub open spec fn is_ok_reply(m: ServerMessage, conn: Seq<char>, f: FrameView) -> bool {
    &&& opt_view(m.join_ref) == f.join_ref
    &&& m.event_ref@ == f.event_ref
    &&& m.topic@ == f.topic
    &&& m.event@ == "phx_reply"@
    &&& m.payload is ServerResponse
    &&& m.payload->ServerResponse_0.status@ == "ok"@
    &&& reply_response_ok(m.payload->ServerResponse_0.response, conn, f.join_ref, f.topic)
}

/// The summary of one channel that an `admin` join publishes:
/// `{"agents":[<agent>,...],"channel":<name>}`.
pub open spec fn summary_text(name: Seq<char>, members: Seq<Seq<char>>) -> Seq<char> {
    "{\"agents\":["@ + join_comma(members.map_values(|m: Seq<char>| json_quoted(m))) + "],\"channel\":"@
        + json_quoted(name) + "}"@
}

fn quoted_list(items: &Vec<String>) -> (r: String)
    ensures
        r@ == join_comma(views(items@).map_values(|m: Seq<char>| json_quoted(m))),
{
    let ghost parts = views(items@).map_values(|m: Seq<char>| json_quoted(m));
    let mut out = String::new();
    let mut i: usize = 0;
    while i < items.len()
        invariant
            i <= items@.len(),
            parts == views(items@).map_values(|m: Seq<char>| json_quoted(m)),
            out@ == join_comma(parts.take(i as int)),
        decreases items@.len() - i,
    {
        let part = quote(items[i].as_str());
        proof {
            assert(parts.take(i + 1).drop_last() =~= parts.take(i as int));
        }
        if i == 0 {
            proof {
                assert(parts.take(1) =~= seq![parts[0]]);
            }
            out = part;
        } else {
            out = out.concat(",").concat(part.as_str());
        }
        i = i + 1;
    }
    proof {
        assert(parts.take(i as int) =~= parts);
    }
    out
}

/// One summary per channel, in the order of the channels, each published on
/// `to:admin:channels`.
pub fn channel_summaries(ctl: &ChannelControl) -> (r: Vec<Publication>)
    requires
        ctl.wf(),
    ensures
        r@.len() == ctl.channel_names().len(),
        forall|i: int| 0 <= i < r@.len() ==> {
            &&& (#[trigger] r@[i]).topic@ == crate::names::to_topic_of("admin"@, "channels"@)
            &&& r@[i].message@ == summary_text(ctl.channel_names()[i], ctl.members_of(ctl.channel_names()[i]))
        },
{
    let names = ctl.channel_list();
    let mut out: Vec<Publication> = Vec::new();
    let mut i: usize = 0;
    while i < names.len()
        invariant
            ctl.wf(),
            i <= names@.len(),
            names@.map_values(|s: String| s@) == ctl.channel_names(),
            out@.len() == i,
            forall|k: int| 0 <= k < i ==> {
                &&& (#[trigger] out@[k]).topic@ == crate::names::to_topic_of("admin"@, "channels"@)
                &&& out@[k].message@ == summary_text(ctl.channel_names()[k], ctl.members_of(ctl.channel_names()[k]))
            },
        decreases names@.len() - i,
    {
        proof {
            assert(names@.map_values(|s: String| s@)[i as int] == names@[i as int]@);
            assert(ctl.channel_names().contains(names@[i as int]@));
        }
        let members = match ctl.channel_agents(names[i].as_str()) {
            Some(m) => m,
            None => Vec::new(),
        };
        let message = "{\"agents\":[".to_owned().concat(quoted_list(&members).as_str()).concat("],\"channel\":").concat(
            quote(names[i].as_str()).as_str(),
        ).concat("}");
        out.push(Publication { topic: crate::names::to_topic("admin", "channels"), message });
        i = i + 1;
    }
    out
}

/// The `presence_state` frame for a joining agent: the channel's members
/// with an identity, grouped by it, each with the metas of its agents.
pub fn presence_state(ctl: &ChannelControl, join_ref: Option<String>, event_ref: &str, channel_name: &str) -> (r: ServerMessage)
    requires
        ctl.wf(),
    ensures
        opt_view(r.join_ref) == opt_view(join_ref),
        r.event_ref@ == event_ref@,
        r.topic@ == channel_name@,
        r.event@ == "presence_state"@,
        r.payload == ServerPayload::ServerJsonValue(r.payload->ServerJsonValue_0),
        exists|g: Seq<(Seq<char>, Seq<Seq<char>>)>|
            crate::presence::is_grouping(g, if ctl.has_channel(channel_name@) {
                crate::control::identified(ctl.members_of(channel_name@), ctl.agents())
            } else {
                Seq::<(Seq<char>, Seq<char>)>::empty()
            }) && r.payload->ServerJsonValue_0@ == crate::presence::presence_text(g),
{
    let state = presence_of(ctl.presence_pairs(channel_name));
    ServerMessage {
        join_ref,
        event_ref: event_ref.to_owned(),
        topic: channel_name.to_owned(),
        event: "presence_state".to_owned(),
        payload: ServerPayload::ServerJsonValue(state),
    }
}

/// Adds channel `channel_name` unless it exists, and hands back the
/// announcement for the `admin` channel: the channel with the names of all
/// channels.
pub fn add_channel(ctl: &mut ChannelControl, channel_name: String) -> (r: Publication)
    requires
        old(ctl).wf(),
    ensures
        crate::control::channel_added(*old(ctl), *final(ctl), channel_name@),
        forall|n: Seq<char>| old(ctl).has_channel(n) ==> final(ctl).listening(n) == old(ctl).listening(n),
        !old(ctl).has_channel(channel_name@) ==> !final(ctl).listening(channel_name@),
        final(ctl).agents() == old(ctl).agents(),
        forall|c: Seq<char>| final(ctl).has_conn(c) == old(ctl).has_conn(c),
        r.topic@ == to_topic_of("admin"@, "channels"@),
        r.message@ == "{\"channel\":"@ + json_quoted(channel_name@) + ",\"channels\":["@
            + join_comma(final(ctl).channel_names().map_values(|m: Seq<char>| json_quoted(m))) + "]}"@,
{
    ctl.new_channel(channel_name.clone(), None);
    let names = ctl.channel_list();
    proof {
        assert(views(names@) =~= names@.map_values(|s: String| s@));
    }
    let message = "{\"channel\":".to_owned().concat(quote(channel_name.as_str()).as_str()).concat(",\"channels\":[").concat(
        quoted_list(&names).as_str(),
    ).concat("]}");
    Publication { topic: crate::names::to_topic("admin", "channels"), message }
}

/// When a join with a verified identity can be made: the frame has a join
/// reference, the connection has a mailbox, and a special channel exists
/// (another is created on demand).
pub open spec fn join_allowed(ctl: ChannelControl, conn: Seq<char>, f: FrameView) -> bool {
    &&& f.join_ref is Some
    &&& ctl.has_conn(conn)
    &&& special_channel(f.topic) ==> ctl.has_channel(f.topic)
}

/// What a join of agent `<conn>:<topic>:<join_ref>` with external identity
/// `e` made of the registries, and what it hands back: the agent is
/// registered (unless it was) and a member of the topic's channel, created
/// where it was missing; nothing else changes. The replies are the ok reply
/// and the presence state; the publications are one summary per channel on
/// an `admin` join, then the presence diff.
pub open spec fn join_done(
    before: ChannelControl,
    after: ChannelControl,
    conn: Seq<char>,
    f: FrameView,
    e: Seq<char>,
    work: JoinWork,
    replies: Seq<ServerMessage>,
    pubs: Seq<Publication>,
) -> bool {
    let n = f.topic;
    let a = agent_id_of(conn, n, f.join_ref->Some_0);
    let members = if before.has_channel(n) { before.members_of(n) } else { Seq::<Seq<char>>::empty() };
    &&& f.join_ref is Some
    &&& work.agent_id@ == a
    &&& work.channel_name@ == n
    &&& opt_view(work.join_ref) == f.join_ref
    &&& after.channels() == before.channels().insert(n, joined(members, a))
    &&& after.has_channel(n)
    &&& after.members_of(n) == joined(members, a)
    &&& after.members_of(n).no_duplicates()
    &&& after.agents() == if before.has_agent(a) {
        before.agents()
    } else {
        before.agents().insert(a, Some(e))
    }
    &&& forall|c: Seq<char>| after.has_conn(c) == before.has_conn(c)
    &&& forall|m: Seq<char>| before.has_channel(m) ==> after.listening(m) == before.listening(m)
    &&& forall|m: Seq<char>| !before.has_channel(m) ==> !after.listening(m)
    &&& work.launch_listener == (!special_channel(n) && !after.listening(n))
    &&& replies.len() == 2
    &&& is_ok_reply(replies[0], conn, f)
    &&& exists|g: Seq<(Seq<char>, Seq<Seq<char>>)>|
        crate::presence::is_grouping(g, crate::control::identified(after.members_of(n), after.agents()))
        && is_presence_state(replies[1], f, crate::presence::presence_text(g))
    &&& pubs.len() == if n == "admin"@ { after.channel_names().len() + 1 } else { 1 }
    &&& forall|i: int| 0 <= i < pubs.len() - 1 ==> {
        &&& (#[trigger] pubs[i]).topic@ == to_topic_of("admin"@, "channels"@)
        &&& pubs[i].message@ == summary_text(after.channel_names()[i], after.members_of(after.channel_names()[i]))
    }
    &&& forall|j: int| 0 <= j < pubs.len() ==> is_prefix_to((#[trigger] pubs[j]).topic@)
    &&& pubs.last().topic@ == to_topic_of(n, "presence_diff"@)
    &&& pubs.last().message@ == crate::presence::diff_text(PresenceAction::Join,
        crate::presence::presence_text(seq![(e, seq![a])]))
}

/// The join procedure once the token has given `external_id`: the channel is
/// created where it is not special and missing, the agent
/// `<conn>:<topic>:<join_ref>` is registered with that identity and made a
/// member. Hands back the ok reply and the presence state for the
/// connection, and the presence diff for Redis (after one channel summary
/// per channel on an `admin` join).
pub fn join_with_identity(ctl: &mut ChannelControl, conn_id: &str, rm: &RequestMessage, external_id: String) -> (r: Result<(JoinWork, Vec<ServerMessage>, Vec<Publication>), ChannelError>)
    requires
        old(ctl).wf(),
    ensures
        final(ctl).wf(),
        r is Ok <==> join_allowed(*old(ctl), conn_id@, rm@),
        rm.join_ref is None ==> r == Err::<(JoinWork, Vec<ServerMessage>, Vec<Publication>), ChannelError>(ChannelError::DecodeError),
        rm.join_ref is Some && !join_allowed(*old(ctl), conn_id@, rm@) ==> r == Err::<(JoinWork, Vec<ServerMessage>, Vec<Publication>), ChannelError>(ChannelError::ChannelNotFound),
        r is Err ==> *final(ctl) == *old(ctl),
        r is Ok ==> join_done(*old(ctl), *final(ctl), conn_id@, rm@, external_id@, r->Ok_0.0, r->Ok_0.1@, r->Ok_0.2@),
{
    let ghost old_ctl = *ctl;
    let join_ref = match &rm.join_ref {
        Some(j) => j.clone(),
        None => return Err(ChannelError::DecodeError),
    };
    let conn_tx = match ctl.get_conn_sender(conn_id.to_owned()) {
        Ok(tx) => tx,
        Err(e) => return Err(e),
    };
    let channel_name = rm.topic.as_str();
    let special = is_special_channel(channel_name);
    if special {
        if !ctl.contains_channel(channel_name) {
            return Err(ChannelError::ChannelNotFound);
        }
    } else {
        ctl.new_channel(channel_name.to_owned(), None);
    }
    let ghost mid = *ctl;
    assert(mid.channels().contains_key(rm.topic@));
    let id = agent_id(conn_id, channel_name, join_ref.as_str());
    ctl.register_agent(id.clone(), Some(external_id.clone()), None);
    assert(ctl.channels().contains_key(rm.topic@));
    assert(ctl.agents().contains_key(id@));
    let ghost registered = *ctl;
    let wiring = match ctl.join_channel(channel_name, id.clone()) {
        Ok(w) => w,
        Err(e) => {
            proof {
                assert(false);
            }
            return Err(e);
        },
    };
    let relay_rx = match ctl.get_agent_subscription(id.clone()) {
        Ok(rx) => rx,
        Err(e) => {
            proof {
                assert(false);
            }
            return Err(e);
        },
    };
    proof {
        let ms = registered.members_of(rm.topic@);
        if !ms.contains(id@) {
            assert(ms.push(id@)[ms.len() as int] == id@);
        }
    }
    assert(ctl.channels().contains_key(rm.topic@));
    assert(ctl.channels()[rm.topic@].contains(id@));
    assert(ctl.agents().contains_key(id@));
    proof {
        let n = rm.topic@;
        let a = id@;
        let members = if old_ctl.has_channel(n) { old_ctl.members_of(n) } else { Seq::<Seq<char>>::empty() };
        if old_ctl.has_channel(n) {
            assert(old_ctl.channels().contains_key(n));
            assert(mid.channels()[n] == old_ctl.channels()[n]);
        } else {
            assert(mid.channels()[n] == Seq::<Seq<char>>::empty());
        }
        assert(registered.channels() == mid.channels());
        assert(registered.channels()[n] == registered.members_of(n));
        assert(registered.members_of(n) == members);
        assert(mid.channels() =~= old_ctl.channels().insert(n, members));
        assert(ctl.channels() =~= old_ctl.channels().insert(n, joined(members, a)));
        assert(ctl.channels()[n] == ctl.members_of(n));
        ctl.lemma_members_unique(n);
        assert forall|m: Seq<char>| !old_ctl.has_channel(m) implies !ctl.listening(m) by {
            ctl.lemma_listening_needs_channel(m);
            if m != n {
                assert(!old_ctl.channels().contains_key(m));
                assert(!ctl.channels().contains_key(m));
            }
        }
    }
    let launch_listener = !special && ctl.needs_listener(channel_name);
    let mut replies: Vec<ServerMessage> = Vec::new();
    replies.push(ok_reply(conn_id, rm.join_ref.clone(), rm.event_ref.as_str(), channel_name));
    let mut publications: Vec<Publication> = Vec::new();
    let admin = channel_name.to_owned() == "admin".to_owned();
    if admin {
        let mut summaries = channel_summaries(ctl);
        proof {
            crate::names::lemma_to_is_not_from("admin"@, "channels"@, Seq::empty(), Seq::empty());
        }
        publications.append(&mut summaries);
    }
    proof {
        crate::names::lemma_to_is_not_from(rm.topic@, "presence_diff"@, Seq::empty(), Seq::empty());
    }
    let ghost sums = publications@;
    assert(forall|j: int| 0 <= j < sums.len() ==> is_prefix_to((#[trigger] sums[j]).topic@));
    replies.push(presence_state(ctl, rm.join_ref.clone(), rm.event_ref.as_str(), channel_name));
    publications.push(presence_diff(channel_name, id.as_str(), external_id.as_str(), PresenceAction::Join));
    proof {
        assert forall|j: int| 0 <= j < publications@.len() implies is_prefix_to((#[trigger] publications@[j]).topic@) by {
            if j < sums.len() {
                assert(publications@[j] == sums[j]);
            }
        }
        assert forall|i: int| 0 <= i < publications@.len() - 1 implies {
            &&& (#[trigger] publications@[i]).topic@ == to_topic_of("admin"@, "channels"@)
            &&& publications@[i].message@ == summary_text(ctl.channel_names()[i], ctl.members_of(ctl.channel_names()[i]))
        } by {
            assert(publications@[i] == sums[i]);
        }
    }
    let work = JoinWork {
        agent_id: id,
        channel_name: rm.topic.clone(),
        join_ref: rm.join_ref.clone(),
        wiring,
        relay_rx,
        conn_tx,
        launch_listener,
    };
    proof {
        let n = rm.topic@;
        let pubs = publications@;
        let after = *ctl;
        assert(work.agent_id@ == agent_id_of(conn_id@, n, rm@.join_ref->Some_0));
        assert(opt_view(work.join_ref) == rm@.join_ref);
        assert(forall|c: Seq<char>| after.has_conn(c) == old_ctl.has_conn(c));
        assert(forall|m: Seq<char>| old_ctl.has_channel(m) ==> after.listening(m) == old_ctl.listening(m));
        assert(replies@.len() == 2);
        assert(is_ok_reply(replies@[0], conn_id@, rm@));
        assert(pubs.len() == if n == "admin"@ { after.channel_names().len() + 1 } else { 1 });
        assert(pubs.last().topic@ == to_topic_of(n, "presence_diff"@));
        let a = agent_id_of(conn_id@, n, rm@.join_ref->Some_0);
        let members = if old_ctl.has_channel(n) { old_ctl.members_of(n) } else { Seq::<Seq<char>>::empty() };
        assert(after.channels() == old_ctl.channels().insert(n, joined(members, a)));
        assert(after.has_channel(n));
        assert(after.members_of(n) == joined(members, a));
        assert(after.members_of(n).no_duplicates());
        assert(after.agents() == if old_ctl.has_agent(a) { old_ctl.agents() } else { old_ctl.agents().insert(a, Some(external_id@)) });
        assert(forall|m: Seq<char>| !old_ctl.has_channel(m) ==> !after.listening(m));
        assert(work.launch_listener == (!special_channel(n) && !after.listening(n)));
        assert(forall|j: int| 0 <= j < pubs.len() ==> is_prefix_to((#[trigger] pubs[j]).topic@));
        assert(pubs.last().message@ == crate::presence::diff_text(PresenceAction::Join,
            crate::presence::presence_text(seq![(external_id@, seq![a])])));
    }
    Ok((work, replies, publications))
}

/// What a leave of agent `<conn>:<topic>:<join_ref>` made of the registries
/// (the agent departed, see `departed`) and what it hands back: the ok reply,
/// and the presence diff where the agent had an identity.
pub open spec fn leave_done(
    before: ChannelControl,
    after: ChannelControl,
    conn: Seq<char>,
    f: FrameView,
    reply: ServerMessage,
    p: Option<Publication>,
) -> bool {
    let n = f.topic;
    let a = agent_id_of(conn, n, f.join_ref->Some_0);
    &&& f.join_ref is Some
    &&& is_ok_reply(reply, conn, f)
    &&& departed(before, after, n, a)
    &&& (p is Some <==> (before.has_agent(a) && before.external_id_of(a) is Some))
    &&& p is Some ==> {
        &&& p->Some_0.topic@ == to_topic_of(n, "presence_diff"@)
        &&& is_prefix_to(p->Some_0.topic@)
        &&& p->Some_0.message@ == crate::presence::diff_text(PresenceAction::Leave,
            crate::presence::presence_text(seq![(before.external_id_of(a)->Some_0, seq![a])]))
    }
}

/// The leave procedure: agent `<conn>:<topic>:<join_ref>` is removed (from
/// every channel), and the channel with it where it is left empty and is not
/// special, its Redis listening task stopped. Hands back the ok reply, and
/// the presence diff where the agent had an identity.
pub fn handle_leave(ctl: &mut ChannelControl, conn_id: &str, rm: &RequestMessage) -> (r: Result<(ServerMessage, Option<Publication>), ChannelError>)
    requires
        old(ctl).wf(),
    ensures
        final(ctl).wf(),
        r is Err <==> rm.join_ref is None,
        r is Err ==> r->Err_0 == ChannelError::DecodeError && *final(ctl) == *old(ctl),
        r is Ok ==> leave_done(*old(ctl), *final(ctl), conn_id@, rm@, r->Ok_0.0, r->Ok_0.1),
{
    let join_ref = match &rm.join_ref {
        Some(j) => j.clone(),
        None => return Err(ChannelError::DecodeError),
    };
    let id = agent_id(conn_id, rm.topic.as_str(), join_ref.as_str());
    let external_id = ctl.depart(rm.topic.clone(), id.clone());
    let reply = ok_reply(conn_id, rm.join_ref.clone(), rm.event_ref.as_str(), rm.topic.as_str());
    proof {
        crate::names::lemma_to_is_not_from(rm.topic@, "presence_diff"@, Seq::empty(), Seq::empty());
    }
    match external_id {
        Some(e) => Ok((reply, Some(presence_diff(rm.topic.as_str(), id.as_str(), e.as_str(), PresenceAction::Leave)))),
        None => Ok((reply, None)),
    }
}

/// Does `t` start with `to:`?
pub open spec fn is_prefix_to(t: Seq<char>) -> bool {
    crate::names::is_prefix("to:"@, t)
}

/// The token of a join: the payload's, else the one given when connecting.
pub open spec fn join_token(p: PayloadView, user_token: Option<Seq<char>>) -> Option<Seq<char>> {
    match p {
        PayloadView::Join(t) => Some(t),
        _ => user_token,
    }
}

/// The identity that the join token of a frame carries, where it has one.
pub open spec fn token_identity(p: PayloadView, user_token: Option<Seq<char>>) -> Option<Seq<char>> {
    match join_token(p, user_token) {
        Some(t) => claims_id(Some(jwt_claims(t))),
        None => None,
    }
}

/// The join procedure: the token (the payload's, else the connection's) is
/// verified, then the join is made with the identity it carries. Any failure
/// abandons the join silently: no reply, and nothing changes.
pub fn handle_join(ctl: &mut ChannelControl, conn_id: &str, rm: &RequestMessage, user_token: Option<String>, secret: &str) -> (r: Result<(JoinWork, Vec<ServerMessage>, Vec<Publication>), ChannelError>)
    requires
        old(ctl).wf(),
    ensures
        final(ctl).wf(),
        join_token(rm.payload@, opt_view(user_token)) is None ==> r == Err::<(JoinWork, Vec<ServerMessage>, Vec<Publication>), ChannelError>(ChannelError::BadToken),
        r is Err ==> *final(ctl) == *old(ctl),
        r is Err && join_allowed(*old(ctl), conn_id@, rm@) ==> r->Err_0 == ChannelError::BadToken,
        r is Ok ==> token_identity(rm.payload@, opt_view(user_token)) is Some && join_done(*old(ctl), *final(ctl), conn_id@, rm@,
            token_identity(rm.payload@, opt_view(user_token))->Some_0, r->Ok_0.0, r->Ok_0.1@, r->Ok_0.2@),
{
    let token = match &rm.payload {
        RequestPayload::Join { token } => token.clone(),
        _ => match user_token {
            Some(t) => t,
            None => return Err(ChannelError::BadToken),
        },
    };
    let external_id = match verify_token(token.as_str(), secret) {
        Ok(id) => id,
        Err(e) => return Err(e),
    };
    join_with_identity(ctl, conn_id, rm, external_id)
}

/// The event names that the frame handler tells apart are distinct.
proof fn lemma_event_names_differ()
    ensures
        "heartbeat"@ != "phx_join"@,
        "heartbeat"@ != "phx_leave"@,
        "phx_join"@ != "phx_leave"@,
{
    reveal_strlit("heartbeat");
    reveal_strlit("phx_join");
    reveal_strlit("phx_leave");
    assert("heartbeat"@[0] != "phx_join"@[0]);
    assert("heartbeat"@[0] != "phx_leave"@[0]);
    assert("phx_join"@[4] != "phx_leave"@[4]);
}

/// What one inbound frame does, in order: a heartbeat on `phoenix` is
/// answered and announced; `phx_join` runs the join procedure, `phx_leave`
/// the leave procedure, and any other frame leaves the registries as they
/// are; every frame, whatever it is and whatever came of it, is mirrored to
/// Redis on `from:<topic>:<event>` with its payload as it came, last. A
/// frame that does not decode is refused and changes nothing.
pub fn handle_message(ctl: &mut ChannelControl, conn_id: &str, user_token: Option<String>, secret: &str, text: &str) -> (r: Result<Plan, ChannelError>)
    requires
        old(ctl).wf(),
    ensures
        final(ctl).wf(),
        r is Err <==> frame_of(text@) is None,
        r is Err ==> r->Err_0 == ChannelError::DecodeError && *final(ctl) == *old(ctl),
        r is Ok ==> ({
            let f = frame_of(text@)->Some_0;
            let plan = r->Ok_0;
            let pubs = plan.publications@;
            let replies = plan.replies@;
            let mirror_topic = from_topic_of(f.topic, f.event);
            &&& pubs.len() >= 1
            &&& pubs.last().topic@ == mirror_topic
            &&& pubs.last().message@ == f.payload_text
            &&& !is_heartbeat(f) ==> forall|j: int| 0 <= j < pubs.len() - 1 ==> (#[trigger] pubs[j]).topic@ != mirror_topic
            &&& is_heartbeat(f) ==> {
                &&& replies.len() == 1
                &&& is_heartbeat_reply(replies[0], f)
                &&& pubs.len() == 2
                &&& pubs[0].topic@ == from_topic_of("phoenix"@, "heartbeat"@)
                &&& pubs[0].message@ == heartbeat_text(conn_id@)
            }
            &&& f.event != "phx_join"@ && f.event != "phx_leave"@ ==> {
                &&& *final(ctl) == *old(ctl)
                &&& plan.join is None
                &&& !is_heartbeat(f) ==> replies.len() == 0 && pubs.len() == 1
            }
            &&& f.event == "phx_join"@ ==> {
                &&& plan.join is None ==> *final(ctl) == *old(ctl) && replies.len() == 0 && pubs.len() == 1
                &&& plan.join is Some ==> token_identity(f.payload, opt_view(user_token)) is Some
                    && join_done(*old(ctl), *final(ctl), conn_id@, f, token_identity(f.payload, opt_view(user_token))->Some_0,
                        plan.join->Some_0, replies, pubs.drop_last())
            }
            &&& f.event == "phx_leave"@ ==> {
                &&& plan.join is None
                &&& f.join_ref is None ==> *final(ctl) == *old(ctl) && replies.len() == 0 && pubs.len() == 1
                &&& f.join_ref is Some ==> replies.len() == 1 && pubs.len() <= 2
                    && leave_done(*old(ctl), *final(ctl), conn_id@, f, replies[0], if pubs.len() == 2 { Some(pubs[0]) } else { None })
            }
        }),
{
    let rm = match decode_frame(text) {
        Some(rm) => rm,
        None => return Err(ChannelError::DecodeError),
    };
    let ghost f = rm@;
    proof {
        lemma_event_names_differ();
    }
    let mut replies: Vec<ServerMessage> = Vec::new();
    let mut publications: Vec<Publication> = Vec::new();
    let mut join: Option<JoinWork> = None;
    let topic = rm.topic.clone();
    let event = rm.event.clone();
    let heartbeat = topic == "phoenix".to_owned() && event == "heartbeat".to_owned();
    assert(heartbeat == is_heartbeat(f));
    if heartbeat {
        replies.push(ok_reply(conn_id, None, rm.event_ref.as_str(), "phoenix"));
        publications.push(heartbeat_publication(conn_id));
    } else if event == "phx_join".to_owned() {
        match handle_join(ctl, conn_id, &rm, user_token, secret) {
            Ok((work, more_replies, more_publications)) => {
                replies = more_replies;
                publications = more_publications;
                join = Some(work);
            },
            Err(_) => {},
        }
    } else if event == "phx_leave".to_owned() {
        match handle_leave(ctl, conn_id, &rm) {
            Ok((reply, publication)) => {
                replies.push(reply);
                match publication {
                    Some(p) => publications.push(p),
                    None => {},
                }
            },
            Err(_) => {},
        }
    }
    let ghost before_mirror = publications@;
    proof {
        assert forall|j: int| 0 <= j < before_mirror.len() && !is_heartbeat(f) implies
            (#[trigger] before_mirror[j]).topic@ != from_topic_of(f.topic, f.event) by {
            assert(is_prefix_to(before_mirror[j].topic@));
            crate::names::lemma_to_prefix_is_not_from(before_mirror[j].topic@, f.topic, f.event);
        }
    }
    publications.push(mirror(&rm));
    proof {
        assert(publications@.drop_last() =~= before_mirror);
    }
    Ok(Plan { join, replies, publications })
}

/// The `datetime` event of the periodic emitter: event reference and
/// `counter` are the tick's number, `datetime` is given by the caller.
pub fn datetime_message(channel_name: &str, counter: u32, datetime: String) -> (r: ChannelMessage)
    ensures
        r->Reply_0.join_ref is None,
        r->Reply_0.event_ref@ == decimal(counter as nat),
        r->Reply_0.topic@ == channel_name@,
        r->Reply_0.event@ == "datetime"@,
        r->Reply_0.payload is ServerResponse,
        r->Reply_0.payload->ServerResponse_0.status@ == "ok"@,
        r->Reply_0.payload->ServerResponse_0.response == (Response::Datetime { datetime, counter }),
{
    ChannelMessage::Reply(ServerMessage {
        join_ref: None,
        event_ref: decimal_text(counter),
        topic: channel_name.to_owned(),
        event: "datetime".to_owned(),
        payload: ServerPayload::ServerResponse(ServerResponse {
            status: "ok".to_owned(),
            response: Response::Datetime { datetime, counter },
        }),
    })
}

/// One tick of the periodic emitter: broadcasts the `datetime` event
/// numbered `counter` on `channel_name`. A channel without members is not
/// sent to (`ChannelEmpty`).
pub fn datetime_handler(ctl: &ChannelControl, channel_name: &str, counter: u32, datetime: String) -> (r: Result<usize, ChannelError>)
    requires
        ctl.wf(),
    ensures
        r == Err::<usize, ChannelError>(ChannelError::ChannelNotFound) <==> !ctl.has_channel(channel_name@),
        r == Err::<usize, ChannelError>(ChannelError::ChannelEmpty) <==> (ctl.has_channel(channel_name@)
            && ctl.members_of(channel_name@).len() == 0),
        r is Ok ==> r->Ok_0 > 0,
{
    ctl.broadcast(channel_name.to_owned(), datetime_message(channel_name, counter, datetime))
}

/// The frame that a Redis message on `redis_topic` becomes on channel
/// `channel_name`: event the part after `to:<channel>:`, payload the
/// message's JSON. `None` where the topic does not feed the channel or the
/// message is not JSON.
pub fn redis_message(channel_name: &str, redis_topic: &str, payload: String) -> (r: Option<ChannelMessage>)
    ensures
        r is Some <==> (crate::names::is_prefix(crate::names::to_prefix_of(channel_name@), redis_topic@)
            && json_valid(payload@)),
        r is Some ==> {
            let m = r->Some_0->Reply_0;
            &&& m.join_ref is None
            &&& m.event_ref@ == "broadcast"@
            &&& m.topic@ == channel_name@
            &&& redis_topic@ == to_topic_of(channel_name@, m.event@)
            &&& m.payload == ServerPayload::ServerJsonValue(payload)
        },
{
    let event = match event_of_topic(channel_name, redis_topic) {
        Some(e) => e,
        None => return None,
    };
    proof {
        assert(crate::names::is_prefix(crate::names::to_prefix_of(channel_name@), redis_topic@)) by {
            assert(redis_topic@.subrange(0, crate::names::to_prefix_of(channel_name@).len() as int)
                =~= crate::names::to_prefix_of(channel_name@));
        }
    }
    if !is_json(payload.as_str()) {
        return None;
    }
    Some(ChannelMessage::Reply(ServerMessage {
        join_ref: None,
        event_ref: "broadcast".to_owned(),
        topic: channel_name.to_owned(),
        event,
        payload: ServerPayload::ServerJsonValue(payload),
    }))
}

} // verus!
