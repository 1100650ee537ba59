//! The controller: the registries of channels, agents and connections, and
//! the fan-out topology between their mailboxes.

use vstd::prelude::*;
use tokio::sync::broadcast::{Receiver, Sender};
use tokio::task::JoinHandle;
use crate::channel::{joined, lemma_joined_contains, lemma_remove_is_without, lemma_without_contains, lemma_without_absent, lemma_without_within, valid_capacity, views, without, Channel, DEFAULT_CAPACITY};
use crate::message::{opt_view, ChannelMessage};
use crate::presence::{is_grouping, lemma_grouping_has, pairs_view};
use crate::names::{agent_of_connection, is_agent_of_connection, is_special_channel, special_channel};

verus! {

/// The errors of the controller's operations.
#[derive(Debug, PartialEq, Eq, Structural)]
pub enum ChannelError {
    /// channel does not exist
    ChannelNotFound,
    /// the channel has no member
    ChannelEmpty,
    /// the agent was never added, or was removed
    AgentNotInitiated,
    /// the join token is missing or does not verify
    BadToken,
    /// can not send message to the mailbox
    MessageSendError,
    /// an inbound frame does not decode
    DecodeError,
}

impl ChannelError {
    /// A line that describes the error.
    pub fn describe(&self) -> String {
        match self {
            ChannelError::ChannelNotFound => "<ChannelNotFound: channel not found>".to_owned(),
            ChannelError::ChannelEmpty => "<ChannelEmpty: channel has no member>".to_owned(),
            ChannelError::AgentNotInitiated => "<AgentNotInitiated: agent not initiated>".to_owned(),
            ChannelError::BadToken => "<BadToken: token missing or invalid>".to_owned(),
            ChannelError::MessageSendError => "<MessageSendError: failed to send a message to the channel>".to_owned(),
            ChannelError::DecodeError => "<DecodeError: frame does not decode>".to_owned(),
        }
    }
}

/// The mailbox of one connection.
struct ConnEntry {
    id: String,
    sender: Sender<ChannelMessage>,
}

/// The mailbox of one agent, its external identity and its relay task.
struct AgentEntry {
    id: String,
    external_id: Option<String>,
    sender: Sender<ChannelMessage>,
    relay_task: Option<JoinHandle<()>>,
}

/// The task that forwards one channel's messages into one agent's mailbox.
struct ChannelAgent {
    agent_id: String,
    channel_name: String,
    join_task: Option<JoinHandle<()>>,
}

/// What the forwarding task of a join needs: the channel's messages, and the
/// agent's mailbox to put them in.
#[derive(Debug)]
pub struct Wiring {
    pub channel_rx: Receiver<ChannelMessage>,
    pub agent_tx: Sender<ChannelMessage>,
}

/// The ids in `ids` of agents of connection `conn`, in their order.
pub open spec fn of_connection(ids: Seq<Seq<char>>, conn: Seq<char>) -> Seq<Seq<char>>
    decreases ids.len(),
{
    if ids.len() == 0 {
        ids
    } else if agent_of_connection(ids.last(), conn) {
        of_connection(ids.drop_last(), conn).push(ids.last())
    } else {
        of_connection(ids.drop_last(), conn)
    }
}

/// An id is among the agents of `conn` in `ids` when it is in `ids` and
/// names an agent of `conn`.
pub proof fn lemma_of_connection(ids: Seq<Seq<char>>, conn: Seq<char>)
    ensures
        forall|a: Seq<char>| #[trigger] of_connection(ids, conn).contains(a) <==> (ids.contains(a) && agent_of_connection(a, conn)),
    decreases ids.len(),
{
    if ids.len() > 0 {
        let t = ids.drop_last();
        lemma_of_connection(t, conn);
        assert(ids == t.push(ids.last()));
        assert forall|a: Seq<char>| #[trigger] of_connection(ids, conn).contains(a) <==> (ids.contains(a) && agent_of_connection(a, conn)) by {
            let f = of_connection(ids, conn);
            let ft = of_connection(t, conn);
            if f.contains(a) {
                let z = choose|z: int| 0 <= z < f.len() && f[z] == a;
                if z < ft.len() {
                    assert(ft[z] == a);
                    assert(ft.contains(a));
                    let y = choose|y: int| 0 <= y < t.len() && t[y] == a;
                    assert(ids[y] == a);
                } else {
                    assert(ids[ids.len() - 1] == a);
                }
            }
            if ids.contains(a) && agent_of_connection(a, conn) {
                let y = choose|y: int| 0 <= y < ids.len() && ids[y] == a;
                if y < t.len() {
                    assert(t[y] == a);
                    assert(ft.contains(a));
                    let z = choose|z: int| 0 <= z < ft.len() && ft[z] == a;
                    assert(f[z] == a);
                } else {
                    assert(f[ft.len() as int] == a);
                }
            }
        }
    }
}

/// The (identity, agent) pairs of the members that have an external
/// identity, in the order of the members.
pub open spec fn identified(members: Seq<Seq<char>>, agents: Map<Seq<char>, Option<Seq<char>>>) -> Seq<(Seq<char>, Seq<char>)>
    decreases members.len(),
{
    if members.len() == 0 {
        Seq::empty()
    } else {
        let rest = identified(members.drop_last(), agents);
        let m = members.last();
        if agents.contains_key(m) && agents[m] is Some {
            rest.push((agents[m]->Some_0, m))
        } else {
            rest
        }
    }
}

/// What a departure of agent `a` through channel `n` makes of the
/// registries: the agent is gone, from every channel; `n` is gone too where
/// that left it empty and it is not special; nothing else changes.
pub open spec fn departed(before: ChannelControl, after: ChannelControl, n: Seq<char>, a: Seq<char>) -> bool {
    &&& after.wf()
    &&& after.agents() == before.agents().remove(a)
    &&& after.has_channel(n) == (before.has_channel(n) && (special_channel(n) || without(before.members_of(n), a).len() > 0))
    &&& forall|m: Seq<char>| m != n ==> after.has_channel(m) == before.has_channel(m)
    &&& forall|m: Seq<char>| #[trigger] after.has_channel(m) ==> after.members_of(m) == without(before.members_of(m), a)
    &&& forall|m: Seq<char>| after.has_channel(m) ==> after.listening(m) == before.listening(m)
    &&& forall|c: Seq<char>| after.has_conn(c) == before.has_conn(c)
}

/// What adding channel `n` makes of the registries: `n` exists, with no
/// members where it is new, and nothing else changes.
pub open spec fn channel_added(before: ChannelControl, after: ChannelControl, n: Seq<char>) -> bool {
    &&& after.wf()
    &&& after.channels() == if before.has_channel(n) {
        before.channels()
    } else {
        before.channels().insert(n, Seq::<Seq<char>>::empty())
    }
}

/// How often `x` occurs in `s`.
pub open spec fn occurrences(s: Seq<Seq<char>>, x: Seq<char>) -> nat
    decreases s.len(),
{
    if s.len() == 0 {
        0
    } else {
        occurrences(s.drop_last(), x) + if s.last() == x { 1nat } else { 0nat }
    }
}

/// An element of a list without duplicates occurs in it once.
pub proof fn lemma_occurs_once(s: Seq<Seq<char>>, x: Seq<char>)
    requires
        s.no_duplicates(),
        s.contains(x),
    ensures
        occurrences(s, x) == 1,
    decreases s.len(),
{
    let t = s.drop_last();
    assert(t.no_duplicates());
    if s.last() == x {
        assert(!t.contains(x)) by {
            if t.contains(x) {
                let k = choose|k: int| 0 <= k < t.len() && t[k] == x;
                assert(s[k] == s[s.len() - 1]);
            }
        }
        lemma_occurs_never(t, x);
    } else {
        let k = choose|k: int| 0 <= k < s.len() && s[k] == x;
        assert(t[k] == x);
        lemma_occurs_once(t, x);
    }
}

/// What a list does not hold occurs in it never.
pub proof fn lemma_occurs_never(s: Seq<Seq<char>>, x: Seq<char>)
    requires
        !s.contains(x),
    ensures
        occurrences(s, x) == 0,
    decreases s.len(),
{
    if s.len() > 0 {
        let t = s.drop_last();
        assert(!t.contains(x)) by {
            if t.contains(x) {
                let k = choose|k: int| 0 <= k < t.len() && t[k] == x;
                assert(s[k] == x);
            }
        }
        assert(s[s.len() - 1] == s.last());
        lemma_occurs_never(t, x);
    }
}

/// Adding a channel once or many times leaves exactly one channel of that
/// name, as the first addition left it.
pub proof fn lemma_channel_add_idempotent(steps: Seq<ChannelControl>, n: Seq<char>)
    requires
        steps.len() >= 3,
        steps[0].wf(),
        forall|i: int| 0 <= i < steps.len() - 1 ==> channel_added(#[trigger] steps[i], steps[i + 1], n),
    ensures
        steps.last().has_channel(n),
        steps.last().channels() == steps[1].channels(),
        occurrences(steps.last().channel_names(), n) == 1,
    decreases steps.len(),
{
    assert(channel_added(steps[0], steps[1], n));
    assert(steps[1].channels().contains_key(n));
    if steps.len() == 3 {
        assert(channel_added(steps[1], steps[2], n));
        assert(steps[1].has_channel(n));
    } else {
        let shorter = steps.drop_last();
        assert forall|i: int| 0 <= i < shorter.len() - 1 implies channel_added(#[trigger] shorter[i], shorter[i + 1], n) by {
            assert(channel_added(steps[i], steps[i + 1], n));
        }
        lemma_channel_add_idempotent(shorter, n);
        assert(channel_added(steps[steps.len() - 2], steps[steps.len() - 1], n));
        assert(shorter.last().channels().contains_key(n));
    }
    assert(steps.last().channels().contains_key(n));
    assert(steps.last().wf());
    lemma_occurs_once(steps.last().channel_names(), n);
}

/// When the last agent of a channel that is not special leaves, the channel
/// is gone, and with it its Redis listening task.
pub proof fn lemma_last_leave_removes_channel(before: ChannelControl, after: ChannelControl, n: Seq<char>, a: Seq<char>)
    requires
        before.wf(),
        before.has_channel(n),
        before.members_of(n) == seq![a],
        !special_channel(n),
        departed(before, after, n, a),
    ensures
        !after.has_channel(n),
        !after.listening(n),
{
    let s = seq![a];
    assert(s.drop_last() =~= Seq::<Seq<char>>::empty());
    assert(without(s, a) == without(s.drop_last(), a));
    assert(without(s, a).len() == 0);
}

/// The special channels stay, whatever agents leave whatever channels.
pub proof fn lemma_special_channels_persist(
    steps: Seq<ChannelControl>,
    chans: Seq<Seq<char>>,
    agents: Seq<Seq<char>>,
    n: Seq<char>,
)
    requires
        steps.len() == chans.len() + 1,
        agents.len() == chans.len(),
        steps[0].wf(),
        forall|i: int| 0 <= i < chans.len() ==> departed(#[trigger] steps[i], steps[i + 1], chans[i], agents[i]),
        special_channel(n),
        steps[0].has_channel(n),
    ensures
        steps.last().has_channel(n),
    decreases chans.len(),
{
    if chans.len() > 0 {
        let k = chans.len() - 1;
        assert forall|i: int| 0 <= i < k implies departed(#[trigger] steps.drop_last()[i], steps.drop_last()[i + 1], chans.drop_last()[i], agents.drop_last()[i]) by {
            assert(departed(steps[i], steps[i + 1], chans[i], agents[i]));
        }
        lemma_special_channels_persist(steps.drop_last(), chans.drop_last(), agents.drop_last(), n);
        assert(departed(steps[k], steps[k + 1], chans[k], agents[k]));
        assert(steps.drop_last().last() == steps[k]);
    }
}

/// A member with an identity is paired with it.
pub proof fn lemma_identified_has(members: Seq<Seq<char>>, agents: Map<Seq<char>, Option<Seq<char>>>, a: Seq<char>)
    requires
        members.contains(a),
        agents.contains_key(a),
        agents[a] is Some,
    ensures
        identified(members, agents).contains((agents[a]->Some_0, a)),
    decreases members.len(),
{
    let t = members.drop_last();
    let rest = identified(t, agents);
    if members.last() == a {
        assert(rest.push((agents[a]->Some_0, a))[rest.len() as int] == (agents[a]->Some_0, a));
    } else {
        let k = choose|k: int| 0 <= k < members.len() && members[k] == a;
        assert(t[k] == a);
        lemma_identified_has(t, agents, a);
        let z = choose|z: int| 0 <= z < rest.len() && rest[z] == (agents[a]->Some_0, a);
        let m = members.last();
        if agents.contains_key(m) && agents[m] is Some {
            assert(identified(members, agents)[z] == (agents[a]->Some_0, a));
        }
    }
}

/// Once an agent with external identity `e` is a member of channel `n`,
/// every presence state of `n` has a group `e` that holds the agent's id.
pub proof fn lemma_presence_reflexive(ctl: ChannelControl, n: Seq<char>, a: Seq<char>, e: Seq<char>, g: Seq<(Seq<char>, Seq<Seq<char>>)>)
    requires
        ctl.has_channel(n),
        ctl.members_of(n).contains(a),
        ctl.agents().contains_key(a),
        ctl.agents()[a] == Some(e),
        is_grouping(g, identified(ctl.members_of(n), ctl.agents())),
    ensures
        exists|i: int| 0 <= i < g.len() && (#[trigger] g[i]).0 == e && g[i].1.contains(a),
{
    lemma_identified_has(ctl.members_of(n), ctl.agents(), a);
    lemma_grouping_has(g, identified(ctl.members_of(n), ctl.agents()), e, a);
}

/// The agents of a connection among ids without duplicates are without
/// duplicates too.
pub proof fn lemma_of_connection_unique(ids: Seq<Seq<char>>, conn: Seq<char>)
    requires
        ids.no_duplicates(),
    ensures
        of_connection(ids, conn).no_duplicates(),
    decreases ids.len(),
{
    if ids.len() > 0 {
        let t = ids.drop_last();
        assert(t.no_duplicates());
        lemma_of_connection_unique(t, conn);
        lemma_of_connection(t, conn);
        if agent_of_connection(ids.last(), conn) {
            let f = of_connection(t, conn);
            assert(!t.contains(ids.last())) by {
                if t.contains(ids.last()) {
                    let k = choose|k: int| 0 <= k < t.len() && t[k] == ids.last();
                    assert(ids[k] == ids[ids.len() - 1]);
                }
            }
            assert(!f.contains(ids.last()));
            let g = f.push(ids.last());
            assert forall|p: int, q: int| 0 <= p < q < g.len() implies g[p] != g[q] by {
                if q == f.len() {
                    assert(f.contains(g[p]) || p >= f.len());
                }
            }
        }
    }
}

/// Channels and their members after the agents `gone` left: a channel that
/// stays keeps exactly its other members; one that went was not special and
/// had no other member.
pub open spec fn left_only(before: ChannelControl, after: ChannelControl, gone: Seq<Seq<char>>) -> bool {
    &&& forall|n: Seq<char>, m: Seq<char>| after.has_channel(n) ==> (#[trigger] after.members_of(n).contains(m)
        <==> before.members_of(n).contains(m) && !gone.contains(m))
    &&& forall|n: Seq<char>| before.has_channel(n) && !after.has_channel(n) ==> !special_channel(n)
    &&& forall|n: Seq<char>, m: Seq<char>| before.has_channel(n) && !after.has_channel(n)
        && #[trigger] before.members_of(n).contains(m) ==> gone.contains(m)
}

/// The view of an optional string slice.
pub open spec fn opt_str(o: Option<&str>) -> Option<Seq<char>> {
    match o {
        Some(s) => Some(s@),
        None => None,
    }
}

/// Does the forwarding task of agent `a` on channel `n` fall under the
/// agent (any where `None`) and the channel (any where `None`)?
pub open spec fn record_matches(agent: Option<Seq<char>>, channel: Option<Seq<char>>, a: Seq<char>, n: Seq<char>) -> bool {
    (agent is None || agent == Some(a)) && (channel is None || channel == Some(n))
}

/// One agent that left a channel because its connection closed.
pub struct Departure {
    pub channel: String,
    pub agent_id: String,
    pub external_id: Option<String>,
}

/// `d` records an agent of connection `conn` that was a member of a channel
/// in `before`, with the identity it had there.
pub open spec fn departure_of(before: ChannelControl, conn: Seq<char>, d: Departure) -> bool {
    &&& before.has_channel(d.channel@)
    &&& before.members_of(d.channel@).contains(d.agent_id@)
    &&& agent_of_connection(d.agent_id@, conn)
    &&& before.has_agent(d.agent_id@)
    &&& opt_view(d.external_id) == before.external_id_of(d.agent_id@)
}

/// No (channel, agent) pair is listed twice.
pub open spec fn departures_distinct(ds: Seq<Departure>) -> bool {
    forall|p: int, q: int| 0 <= p < q < ds.len() ==> (ds[p].channel@, ds[p].agent_id@) != (ds[q].channel@, ds[q].agent_id@)
}

/// The departure of agent `a` from channel `n` is listed.
pub open spec fn departure_listed(ds: Seq<Departure>, n: Seq<char>, a: Seq<char>) -> bool {
    exists|k: int| 0 <= k < ds.len() && ds[k].channel@ == n && ds[k].agent_id@ == a
}

/// Manages all channels, agents and connections.
pub struct ChannelControl {
    channel_map: Vec<Channel>,
    agent_task_map: Vec<ChannelAgent>,
    conn_sender_map: Vec<ConnEntry>,
    agent_sender_map: Vec<AgentEntry>,
}

impl ChannelControl {
    /// The names of the channels, in the order of their creation.
    pub closed spec fn channel_names(&self) -> Seq<Seq<char>> {
        self.channel_map@.map_values(|c: Channel| c.topic())
    }

    /// Is there a channel named `n`?
    pub open spec fn has_channel(&self, n: Seq<char>) -> bool {
        self.channel_names().contains(n)
    }

    closed spec fn channel_index(&self, n: Seq<char>) -> int {
        choose|i: int| 0 <= i < self.channel_map@.len() && self.channel_map@[i].topic() == n
    }

    /// The member agents of channel `n`.
    pub closed spec fn members_of(&self, n: Seq<char>) -> Seq<Seq<char>> {
        self.channel_map@[self.channel_index(n)].members()
    }

    /// Does channel `n` have a Redis listening task?
    pub closed spec fn listening(&self, n: Seq<char>) -> bool {
        self.has_channel(n) && self.channel_map@[self.channel_index(n)].is_listening()
    }

    /// Each channel with its members.
    pub open spec fn channels(&self) -> Map<Seq<char>, Seq<Seq<char>>> {
        Map::new(|n: Seq<char>| self.has_channel(n), |n: Seq<char>| self.members_of(n))
    }

    /// The ids of the connections with a mailbox.
    pub closed spec fn conn_ids(&self) -> Seq<Seq<char>> {
        self.conn_sender_map@.map_values(|e: ConnEntry| e.id@)
    }

    /// Has connection `c` a mailbox?
    pub open spec fn has_conn(&self, c: Seq<char>) -> bool {
        self.conn_ids().contains(c)
    }

    /// The ids of the agents with a mailbox.
    pub closed spec fn agent_ids(&self) -> Seq<Seq<char>> {
        self.agent_sender_map@.map_values(|e: AgentEntry| e.id@)
    }

    /// Has agent `a` a mailbox?
    pub open spec fn has_agent(&self, a: Seq<char>) -> bool {
        self.agent_ids().contains(a)
    }

    closed spec fn agent_index(&self, a: Seq<char>) -> int {
        choose|i: int| 0 <= i < self.agent_sender_map@.len() && self.agent_sender_map@[i].id@ == a
    }

    /// The external identity of agent `a`, where it was given one.
    pub closed spec fn external_id_of(&self, a: Seq<char>) -> Option<Seq<char>> {
        opt_view(self.agent_sender_map@[self.agent_index(a)].external_id)
    }

    /// Each agent with its external identity.
    pub open spec fn agents(&self) -> Map<Seq<char>, Option<Seq<char>>> {
        Map::new(|a: Seq<char>| self.has_agent(a), |a: Seq<char>| self.external_id_of(a))
    }

    closed spec fn record_keys(&self) -> Seq<(Seq<char>, Seq<char>)> {
        self.agent_task_map@.map_values(|r: ChannelAgent| (r.agent_id@, r.channel_name@))
    }

    /// Is there a forwarding task of agent `a` on channel `n`?
    pub closed spec fn forwards(&self, a: Seq<char>, n: Seq<char>) -> bool {
        self.record_keys().contains((a, n))
    }

    /// Names are unique in each registry, every member of a channel is a
    /// registered agent, and a forwarding task exists exactly for each member
    /// of each channel.
    pub closed spec fn wf(&self) -> bool {
        &&& self.channel_names().no_duplicates()
        &&& forall|i: int| 0 <= i < self.channel_map@.len() ==> (#[trigger] self.channel_map@[i]).wf()
        &&& self.conn_ids().no_duplicates()
        &&& self.agent_ids().no_duplicates()
        &&& forall|i: int, k: int|
            0 <= i < self.channel_map@.len() && 0 <= k < self.channel_map@[i].members().len()
                ==> self.has_agent(#[trigger] self.channel_map@[i].members()[k])
        &&& self.forwarding_ok()
    }

    /// A forwarding task exists exactly for each member of each channel.
    pub closed spec fn forwarding_ok(&self) -> bool {
        &&& forall|a: Seq<char>, n: Seq<char>| #[trigger] self.forwards(a, n)
            ==> self.channels().contains_key(n) && self.channels()[n].contains(a)
        &&& forall|a: Seq<char>, n: Seq<char>| self.channels().contains_key(n) && #[trigger] self.channels()[n].contains(a)
            ==> self.forwards(a, n)
    }

    proof fn lemma_forwarding_kept(before: &Self, after: &Self)
        requires
            before.forwarding_ok(),
            after.channels() == before.channels(),
            forall|a: Seq<char>, n: Seq<char>| after.forwards(a, n) == before.forwards(a, n),
        ensures
            after.forwarding_ok(),
    {
        assert forall|a: Seq<char>, n: Seq<char>| #[trigger] after.forwards(a, n)
            implies after.channels().contains_key(n) && after.channels()[n].contains(a) by {
            assert(before.forwards(a, n));
        }
        assert forall|a: Seq<char>, n: Seq<char>| after.channels().contains_key(n) && #[trigger] after.channels()[n].contains(a)
            implies after.forwards(a, n) by {
            assert(before.channels()[n].contains(a));
        }
    }

    proof fn lemma_channel_at(&self, j: int)
        requires
            self.channel_names().no_duplicates(),
            0 <= j < self.channel_map@.len(),
        ensures
            self.has_channel(self.channel_map@[j].topic()),
            self.channel_map@[self.channel_index(self.channel_map@[j].topic())] == self.channel_map@[j],
            self.members_of(self.channel_map@[j].topic()) == self.channel_map@[j].members(),
            self.listening(self.channel_map@[j].topic()) == self.channel_map@[j].is_listening(),
    {
        let n = self.channel_map@[j].topic();
        assert(self.channel_names()[j] == n);
        let k = self.channel_index(n);
        assert(self.channel_names()[k] == self.channel_names()[j]);
    }

    proof fn lemma_channel_of(&self, n: Seq<char>) -> (j: int)
        requires
            self.channel_names().no_duplicates(),
            self.has_channel(n),
        ensures
            0 <= j < self.channel_map@.len(),
            self.channel_map@[j].topic() == n,
            self.members_of(n) == self.channel_map@[j].members(),
            self.listening(n) == self.channel_map@[j].is_listening(),
    {
        let j = choose|j: int| 0 <= j < self.channel_names().len() && self.channel_names()[j] == n;
        self.lemma_channel_at(j);
        j
    }

    proof fn lemma_agent_at(&self, j: int)
        requires
            self.agent_ids().no_duplicates(),
            0 <= j < self.agent_sender_map@.len(),
        ensures
            self.has_agent(self.agent_sender_map@[j].id@),
            self.external_id_of(self.agent_sender_map@[j].id@) == opt_view(self.agent_sender_map@[j].external_id),
    {
        let a = self.agent_sender_map@[j].id@;
        assert(self.agent_ids()[j] == a);
        let k = self.agent_index(a);
        assert(self.agent_ids()[k] == self.agent_ids()[j]);
    }

    proof fn lemma_agent_of(&self, a: Seq<char>) -> (j: int)
        requires
            self.agent_ids().no_duplicates(),
            self.has_agent(a),
        ensures
            0 <= j < self.agent_sender_map@.len(),
            self.agent_sender_map@[j].id@ == a,
            self.external_id_of(a) == opt_view(self.agent_sender_map@[j].external_id),
    {
        let j = choose|j: int| 0 <= j < self.agent_ids().len() && self.agent_ids()[j] == a;
        self.lemma_agent_at(j);
        j
    }

    /// An empty controller.
    pub fn new() -> (r: Self)
        ensures
            r.wf(),
            r.channels() == Map::<Seq<char>, Seq<Seq<char>>>::empty(),
            r.agents() == Map::<Seq<char>, Option<Seq<char>>>::empty(),
            forall|c: Seq<char>| !r.has_conn(c),
    {
        let r = ChannelControl {
            channel_map: Vec::new(),
            agent_task_map: Vec::new(),
            conn_sender_map: Vec::new(),
            agent_sender_map: Vec::new(),
        };
        assert(r.channel_names() =~= Seq::<Seq<char>>::empty());
        assert(r.agent_ids() =~= Seq::<Seq<char>>::empty());
        assert(r.conn_ids() =~= Seq::<Seq<char>>::empty());
        assert(r.channels() =~= Map::<Seq<char>, Seq<Seq<char>>>::empty());
        assert(r.agents() =~= Map::<Seq<char>, Option<Seq<char>>>::empty());
        r
    }

    fn find_channel(&self, name: &str) -> (r: Option<usize>)
        ensures
            match r {
                Some(i) => i < self.channel_map@.len() && self.channel_map@[i as int].topic() == name@ && self.has_channel(name@),
                None => !self.has_channel(name@),
            },
    {
        let mut i: usize = 0;
        while i < self.channel_map.len()
            invariant
                i <= self.channel_map@.len(),
                forall|k: int| 0 <= k < i ==> self.channel_map@[k].topic() != name@,
            decreases self.channel_map@.len() - i,
        {
            if self.channel_map[i].is_named(name) {
                assert(self.channel_names()[i as int] == name@);
                return Some(i);
            }
            i = i + 1;
        }
        proof {
            if self.has_channel(name@) {
                let k = choose|k: int| 0 <= k < self.channel_names().len() && self.channel_names()[k] == name@;
                assert(self.channel_map@[k].topic() == name@);
            }
        }
        None
    }

    fn find_conn(&self, conn_id: &str) -> (r: Option<usize>)
        ensures
            match r {
                Some(i) => i < self.conn_sender_map@.len() && self.conn_sender_map@[i as int].id@ == conn_id@ && self.has_conn(conn_id@),
                None => !self.has_conn(conn_id@),
            },
    {
        let key = conn_id.to_owned();
        let mut i: usize = 0;
        while i < self.conn_sender_map.len()
            invariant
                i <= self.conn_sender_map@.len(),
                key@ == conn_id@,
                forall|k: int| 0 <= k < i ==> self.conn_sender_map@[k].id@ != conn_id@,
            decreases self.conn_sender_map@.len() - i,
        {
            if self.conn_sender_map[i].id == key {
                assert(self.conn_ids()[i as int] == conn_id@);
                return Some(i);
            }
            i = i + 1;
        }
        proof {
            if self.has_conn(conn_id@) {
                let k = choose|k: int| 0 <= k < self.conn_ids().len() && self.conn_ids()[k] == conn_id@;
                assert(self.conn_sender_map@[k].id@ == conn_id@);
            }
        }
        None
    }

    fn find_agent(&self, agent_id: &str) -> (r: Option<usize>)
        ensures
            match r {
                Some(i) => i < self.agent_sender_map@.len() && self.agent_sender_map@[i as int].id@ == agent_id@ && self.has_agent(agent_id@),
                None => !self.has_agent(agent_id@),
            },
    {
        let key = agent_id.to_owned();
        let mut i: usize = 0;
        while i < self.agent_sender_map.len()
            invariant
                i <= self.agent_sender_map@.len(),
                key@ == agent_id@,
                forall|k: int| 0 <= k < i ==> self.agent_sender_map@[k].id@ != agent_id@,
            decreases self.agent_sender_map@.len() - i,
        {
            if self.agent_sender_map[i].id == key {
                assert(self.agent_ids()[i as int] == agent_id@);
                return Some(i);
            }
            i = i + 1;
        }
        proof {
            if self.has_agent(agent_id@) {
                let k = choose|k: int| 0 <= k < self.agent_ids().len() && self.agent_ids()[k] == agent_id@;
                assert(self.agent_sender_map@[k].id@ == agent_id@);
            }
        }
        None
    }

    /// Gives connection `name` a mailbox, unless it has one.
    pub fn add_connection(&mut self, name: String)
        requires
            old(self).wf(),
        ensures
            final(self).wf(),
            forall|c: Seq<char>| final(self).has_conn(c) == (old(self).has_conn(c) || c == name@),
            final(self).channels() == old(self).channels(),
            final(self).agents() == old(self).agents(),
            forall|n: Seq<char>| final(self).listening(n) == old(self).listening(n),
    {
        match self.find_conn(name.as_str()) {
            Some(_) => {},
            None => {
                let (tx, _rx) = tokio::sync::broadcast::channel(DEFAULT_CAPACITY);
                let ghost before = self.conn_ids();
                let ghost old_self = *self;
                self.conn_sender_map.push(ConnEntry { id: name, sender: tx });
                proof {
                    assert(self.channels() =~= old_self.channels());
                    Self::lemma_forwarding_kept(&old_self, self);
                    assert(self.conn_ids() =~= before.push(name@));
                    assert forall|c: Seq<char>| self.has_conn(c) == (before.contains(c) || c == name@) by {
                        if self.has_conn(c) && c != name@ {
                            let k = choose|k: int| 0 <= k < self.conn_ids().len() && self.conn_ids()[k] == c;
                            assert(before[k] == c);
                        }
                        if before.contains(c) {
                            let k = choose|k: int| 0 <= k < before.len() && before[k] == c;
                            assert(self.conn_ids()[k] == c);
                        }
                        if c == name@ {
                            assert(self.conn_ids()[before.len() as int] == c);
                        }
                    }
                    assert(self.conn_ids().no_duplicates()) by {
                        assert forall|a: int, b: int| 0 <= a < b < self.conn_ids().len() implies self.conn_ids()[a] != self.conn_ids()[b] by {
                            if b == before.len() {
                                assert(before[a] == self.conn_ids()[a]);
                            }
                        }
                    }
                }
            },
        }
    }

    /// A receiver of connection `conn_id`'s mailbox; fails where the
    /// connection has none.
    pub fn get_conn_subscription(&self, conn_id: String) -> (r: Result<Receiver<ChannelMessage>, ChannelError>)
        requires
            self.wf(),
        ensures
            r is Ok <==> self.has_conn(conn_id@),
            r is Err ==> r->Err_0 == ChannelError::ChannelNotFound,
    {
        match self.find_conn(conn_id.as_str()) {
            Some(i) => Ok(self.conn_sender_map[i].sender.subscribe()),
            None => Err(ChannelError::ChannelNotFound),
        }
    }

    /// A sender on connection `conn_id`'s mailbox; fails where the
    /// connection has none.
    pub fn get_conn_sender(&self, conn_id: String) -> (r: Result<Sender<ChannelMessage>, ChannelError>)
        requires
            self.wf(),
        ensures
            r is Ok <==> self.has_conn(conn_id@),
            r is Err ==> r->Err_0 == ChannelError::ChannelNotFound,
    {
        match self.find_conn(conn_id.as_str()) {
            Some(i) => Ok(self.conn_sender_map[i].sender.clone()),
            None => Err(ChannelError::ChannelNotFound),
        }
    }

    /// Puts `message` in connection `conn_id`'s mailbox; returns how many
    /// receivers it had.
    pub fn send_to_connction(&self, conn_id: String, message: ChannelMessage) -> (r: Result<usize, ChannelError>)
        requires
            self.wf(),
        ensures
            r == Err::<usize, ChannelError>(ChannelError::ChannelNotFound) <==> !self.has_conn(conn_id@),
            r is Ok ==> r->Ok_0 > 0,
            r is Err ==> r->Err_0 == ChannelError::ChannelNotFound || r->Err_0 == ChannelError::MessageSendError,
    {
        match self.find_conn(conn_id.as_str()) {
            Some(i) => match self.conn_sender_map[i].sender.send(message) {
                Ok(n) => Ok(n),
                Err(_) => Err(ChannelError::MessageSendError),
            },
            None => Err(ChannelError::ChannelNotFound),
        }
    }

    /// Creates channel `name` with a mailbox of `capacity` messages (100 by
    /// default), unless it exists: a second call changes nothing.
    pub fn new_channel(&mut self, name: String, capacity: Option<usize>)
        requires
            old(self).wf(),
            valid_capacity(capacity),
        ensures
            channel_added(*old(self), *final(self), name@),
            forall|n: Seq<char>| old(self).has_channel(n) ==> final(self).listening(n) == old(self).listening(n),
            !old(self).has_channel(name@) ==> !final(self).listening(name@),
            final(self).agents() == old(self).agents(),
            forall|c: Seq<char>| final(self).has_conn(c) == old(self).has_conn(c),
    {
        match self.find_channel(name.as_str()) {
            Some(_) => {},
            None => {
                let ghost old_self = *self;
                let ch = Channel::new(name, capacity);
                self.channel_map.push(ch);
                proof {
                    let len = old_self.channel_map@.len();
                    assert(self.channel_names() =~= old_self.channel_names().push(name@));
                    assert(self.channel_names().no_duplicates()) by {
                        assert forall|a: int, b: int| 0 <= a < b < self.channel_names().len() implies self.channel_names()[a] != self.channel_names()[b] by {
                            if b == len {
                                assert(old_self.channel_names()[a] == self.channel_names()[a]);
                            }
                        }
                    }
                    assert forall|i: int, k: int|
                        0 <= i < self.channel_map@.len() && 0 <= k < self.channel_map@[i].members().len()
                            implies self.has_agent(#[trigger] self.channel_map@[i].members()[k]) by {
                        assert(i < len);
                        assert(self.channel_map@[i] == old_self.channel_map@[i]);
                    }
                    self.lemma_channel_at(len as int);
                    assert forall|n: Seq<char>| old_self.has_channel(n) implies
                        self.has_channel(n) && self.members_of(n) == old_self.members_of(n)
                        && self.listening(n) == old_self.listening(n) by {
                        let j = old_self.lemma_channel_of(n);
                        self.lemma_channel_at(j);
                    }
                    assert forall|n: Seq<char>| self.has_channel(n) implies old_self.has_channel(n) || n == name@ by {
                        let j = self.lemma_channel_of(n);
                        if j < len {
                            old_self.lemma_channel_at(j);
                        }
                    }
                    assert(self.channels() =~= old_self.channels().insert(name@, Seq::<Seq<char>>::empty()));
                    assert forall|a: Seq<char>, n: Seq<char>| #[trigger] self.forwards(a, n)
                        implies self.channels().contains_key(n) && self.channels()[n].contains(a) by {
                        assert(old_self.forwards(a, n));
                    }
                    assert forall|a: Seq<char>, n: Seq<char>| self.channels().contains_key(n) && #[trigger] self.channels()[n].contains(a)
                        implies self.forwards(a, n) by {
                        if n != name@ {
                            assert(old_self.channels()[n].contains(a));
                        }
                    }
                }
            },
        }
    }

    /// Broadcasts `message` on channel `channel_name`; returns how many
    /// receivers its mailbox had. A channel without members is not sent to.
    pub fn broadcast(&self, channel_name: String, message: ChannelMessage) -> (r: Result<usize, ChannelError>)
        requires
            self.wf(),
        ensures
            r == Err::<usize, ChannelError>(ChannelError::ChannelNotFound) <==> !self.has_channel(channel_name@),
            r == Err::<usize, ChannelError>(ChannelError::ChannelEmpty) <==> (self.has_channel(channel_name@)
                && self.members_of(channel_name@).len() == 0),
            r is Ok ==> r->Ok_0 > 0,
            r is Err ==> r->Err_0 == ChannelError::ChannelNotFound || r->Err_0 == ChannelError::ChannelEmpty
                || r->Err_0 == ChannelError::MessageSendError,
    {
        match self.find_channel(channel_name.as_str()) {
            Some(i) => {
                proof {
                    self.lemma_channel_at(i as int);
                }
                if self.channel_map[i].empty() {
                    Err(ChannelError::ChannelEmpty)
                } else {
                    match self.channel_map[i].send(message) {
                        Ok(n) => Ok(n),
                        Err(_) => Err(ChannelError::MessageSendError),
                    }
                }
            },
            None => Err(ChannelError::ChannelNotFound),
        }
    }

    /// Gives agent `agent_id` a mailbox and the external identity
    /// `external_id`, unless it has a mailbox already.
    pub fn register_agent(&mut self, agent_id: String, external_id: Option<String>, capacity: Option<usize>)
        requires
            old(self).wf(),
            valid_capacity(capacity),
        ensures
            final(self).wf(),
            final(self).agents() == if old(self).has_agent(agent_id@) {
                old(self).agents()
            } else {
                old(self).agents().insert(agent_id@, opt_view(external_id))
            },
            final(self).channels() == old(self).channels(),
            forall|n: Seq<char>| final(self).listening(n) == old(self).listening(n),
            forall|c: Seq<char>| final(self).has_conn(c) == old(self).has_conn(c),
    {
        match self.find_agent(agent_id.as_str()) {
            Some(_) => {},
            None => {
                let ghost old_self = *self;
                let cap = match capacity {
                    Some(c) => c,
                    None => DEFAULT_CAPACITY,
                };
                let (tx, _rx) = tokio::sync::broadcast::channel(cap);
                let ghost a = agent_id@;
                let ghost e = opt_view(external_id);
                self.agent_sender_map.push(AgentEntry { id: agent_id, external_id, sender: tx, relay_task: None });
                proof {
                    let len = old_self.agent_sender_map@.len();
                    assert(self.agent_ids() =~= old_self.agent_ids().push(a));
                    assert(self.agent_ids().no_duplicates()) by {
                        assert forall|x: int, y: int| 0 <= x < y < self.agent_ids().len() implies self.agent_ids()[x] != self.agent_ids()[y] by {
                            if y == len {
                                assert(old_self.agent_ids()[x] == self.agent_ids()[x]);
                            }
                        }
                    }
                    self.lemma_agent_at(len as int);
                    assert forall|b: Seq<char>| old_self.has_agent(b) implies
                        self.has_agent(b) && self.external_id_of(b) == old_self.external_id_of(b) by {
                        let j = old_self.lemma_agent_of(b);
                        self.lemma_agent_at(j);
                    }
                    assert forall|b: Seq<char>| self.has_agent(b) implies old_self.has_agent(b) || b == a by {
                        let j = self.lemma_agent_of(b);
                        if j < len {
                            old_self.lemma_agent_at(j);
                        }
                    }
                    assert(self.agents() =~= old_self.agents().insert(a, e));
                    assert forall|i: int, k: int|
                        0 <= i < self.channel_map@.len() && 0 <= k < self.channel_map@[i].members().len()
                            implies self.has_agent(#[trigger] self.channel_map@[i].members()[k]) by {
                        assert(old_self.has_agent(old_self.channel_map@[i].members()[k]));
                    }
                    assert(self.channel_names() == old_self.channel_names());
                    assert(self.channels() =~= old_self.channels());
                    Self::lemma_forwarding_kept(&old_self, self);
                }
            },
        }
    }

    /// Gives agent `agent_id` a mailbox of `capacity` messages (100 by
    /// default), with no external identity, unless it has one.
    pub fn add_agent(&mut self, agent_id: String, capacity: Option<usize>)
        requires
            old(self).wf(),
            valid_capacity(capacity),
        ensures
            final(self).wf(),
            final(self).agents() == if old(self).has_agent(agent_id@) {
                old(self).agents()
            } else {
                old(self).agents().insert(agent_id@, None)
            },
            final(self).channels() == old(self).channels(),
            forall|n: Seq<char>| final(self).listening(n) == old(self).listening(n),
            forall|c: Seq<char>| final(self).has_conn(c) == old(self).has_conn(c),
    {
        self.register_agent(agent_id, None, capacity);
    }

    /// A receiver of agent `agent_id`'s mailbox; fails where the agent has
    /// none.
    pub fn get_agent_subscription(&self, agent_id: String) -> (r: Result<Receiver<ChannelMessage>, ChannelError>)
        requires
            self.wf(),
        ensures
            r is Ok <==> self.has_agent(agent_id@),
            r is Err ==> r->Err_0 == ChannelError::AgentNotInitiated,
    {
        match self.find_agent(agent_id.as_str()) {
            Some(i) => Ok(self.agent_sender_map[i].sender.subscribe()),
            None => Err(ChannelError::AgentNotInitiated),
        }
    }

    proof fn lemma_update_channel(old_c: &Self, new_c: &Self, i: int)
        requires
            old_c.channel_names().no_duplicates(),
            0 <= i < old_c.channel_map@.len(),
            new_c.channel_map@ == old_c.channel_map@.update(i, new_c.channel_map@[i]),
            new_c.channel_map@[i].topic() == old_c.channel_map@[i].topic(),
        ensures
            new_c.channel_names() == old_c.channel_names(),
            new_c.channels() == old_c.channels().insert(old_c.channel_map@[i].topic(), new_c.channel_map@[i].members()),
            forall|n: Seq<char>| n != old_c.channel_map@[i].topic() ==> new_c.listening(n) == old_c.listening(n),
            new_c.listening(old_c.channel_map@[i].topic()) == new_c.channel_map@[i].is_listening(),
            forall|n: Seq<char>| new_c.has_channel(n) == old_c.has_channel(n),
    {
        let t = old_c.channel_map@[i].topic();
        assert(new_c.channel_names() =~= old_c.channel_names());
        new_c.lemma_channel_at(i);
        assert forall|n: Seq<char>| old_c.has_channel(n) && n != t implies
            new_c.members_of(n) == old_c.members_of(n) && new_c.listening(n) == old_c.listening(n) by {
            let j = old_c.lemma_channel_of(n);
            new_c.lemma_channel_at(j);
        }
        assert forall|n: Seq<char>| !old_c.has_channel(n) implies new_c.listening(n) == old_c.listening(n) by {
            assert(!new_c.has_channel(n));
        }
        old_c.lemma_channel_at(i);
        assert(new_c.channels() =~= old_c.channels().insert(t, new_c.channel_map@[i].members()));
    }

    fn find_record(&self, agent_id: &str, channel_name: &str) -> (r: Option<usize>)
        ensures
            match r {
                Some(i) => i < self.agent_task_map@.len() && self.record_keys()[i as int] == (agent_id@, channel_name@),
                None => !self.forwards(agent_id@, channel_name@),
            },
    {
        let a = agent_id.to_owned();
        let c = channel_name.to_owned();
        let mut i: usize = 0;
        while i < self.agent_task_map.len()
            invariant
                i <= self.agent_task_map@.len(),
                a@ == agent_id@,
                c@ == channel_name@,
                forall|k: int| 0 <= k < i ==> self.record_keys()[k] != (agent_id@, channel_name@),
            decreases self.agent_task_map@.len() - i,
        {
            if self.agent_task_map[i].agent_id == a && self.agent_task_map[i].channel_name == c {
                return Some(i);
            }
            i = i + 1;
        }
        None
    }

    /// Aborts and forgets the forwarding tasks of `agent_id` (every agent
    /// where it is `None`) on `channel_name` (every channel where it is `None`).
    fn drop_records(&mut self, agent_id: Option<&str>, channel_name: Option<&str>)
        ensures
            final(self).channel_map == old(self).channel_map,
            final(self).conn_sender_map == old(self).conn_sender_map,
            final(self).agent_sender_map == old(self).agent_sender_map,
            forall|a: Seq<char>, n: Seq<char>| #[trigger] final(self).forwards(a, n) <==> old(self).forwards(a, n)
                && !record_matches(opt_str(agent_id), opt_str(channel_name), a, n),
    {
        let ghost old_keys = self.record_keys();
        let mut i: usize = 0;
        while i < self.agent_task_map.len()
            invariant
                i <= self.agent_task_map@.len(),
                self.channel_map == old(self).channel_map,
                self.conn_sender_map == old(self).conn_sender_map,
                self.agent_sender_map == old(self).agent_sender_map,
                old_keys == old(self).record_keys(),
                forall|k: int| 0 <= k < i ==> !record_matches(opt_str(agent_id), opt_str(channel_name),
                    #[trigger] self.record_keys()[k].0, self.record_keys()[k].1),
                forall|x: (Seq<char>, Seq<char>)| #[trigger] self.record_keys().contains(x) ==> old_keys.contains(x),
                forall|x: (Seq<char>, Seq<char>)| #[trigger] old_keys.contains(x)
                    && !record_matches(opt_str(agent_id), opt_str(channel_name), x.0, x.1) ==> self.record_keys().contains(x),
            decreases self.agent_task_map@.len() - i,
        {
            let agent_matches = match agent_id {
                Some(a) => self.agent_task_map[i].agent_id == a.to_owned(),
                None => true,
            };
            let channel_matches = match channel_name {
                Some(c) => self.agent_task_map[i].channel_name == c.to_owned(),
                None => true,
            };
            let ghost keys = self.record_keys();
            if agent_matches && channel_matches {
                let rec = self.agent_task_map.remove(i);
                if let Some(t) = &rec.join_task {
                    t.abort();
                }
                proof {
                    assert(self.record_keys() =~= keys.remove(i as int));
                    assert forall|x: (Seq<char>, Seq<char>)| #[trigger] self.record_keys().contains(x) implies old_keys.contains(x) by {
                        let z = choose|z: int| 0 <= z < self.record_keys().len() && self.record_keys()[z] == x;
                        let z2 = if z < i { z } else { z + 1 };
                        assert(keys[z2] == x);
                        assert(keys.contains(x));
                    }
                    assert forall|x: (Seq<char>, Seq<char>)| #[trigger] old_keys.contains(x)
                        && !record_matches(opt_str(agent_id), opt_str(channel_name), x.0, x.1) implies self.record_keys().contains(x) by {
                        assert(keys.contains(x));
                        let z = choose|z: int| 0 <= z < keys.len() && keys[z] == x;
                        assert(z != i);
                        let z2 = if z < i { z } else { z - 1 };
                        assert(self.record_keys()[z2] == x);
                    }
                    assert forall|k: int| 0 <= k < i implies !record_matches(opt_str(agent_id), opt_str(channel_name),
                        #[trigger] self.record_keys()[k].0, self.record_keys()[k].1) by {
                        assert(self.record_keys()[k] == keys[k]);
                    }
                }
            } else {
                i = i + 1;
            }
        }
        proof {
            assert forall|a: Seq<char>, n: Seq<char>| #[trigger] self.forwards(a, n) implies
                !record_matches(opt_str(agent_id), opt_str(channel_name), a, n) by {
                let z = choose|z: int| 0 <= z < self.record_keys().len() && self.record_keys()[z] == (a, n);
                assert(self.record_keys()[z].0 == a);
            }
        }
    }

    /// Makes `agent_id` a member of channel `channel_name` (once, however
    /// often it joins) and hands out what the join's forwarding task needs.
    /// Fails where the channel does not exist or the agent has no mailbox.
    pub fn join_channel(&mut self, channel_name: &str, agent_id: String) -> (r: Result<Wiring, ChannelError>)
        requires
            old(self).wf(),
        ensures
            final(self).wf(),
            r is Ok <==> old(self).has_channel(channel_name@) && old(self).has_agent(agent_id@),
            r is Err ==> r->Err_0 == if !old(self).has_channel(channel_name@) {
                ChannelError::ChannelNotFound
            } else {
                ChannelError::AgentNotInitiated
            },
            final(self).channels() == if r is Ok {
                old(self).channels().insert(channel_name@, joined(old(self).members_of(channel_name@), agent_id@))
            } else {
                old(self).channels()
            },
            final(self).agents() == old(self).agents(),
            forall|n: Seq<char>| final(self).listening(n) == old(self).listening(n),
            forall|c: Seq<char>| final(self).has_conn(c) == old(self).has_conn(c),
    {
        let i = match self.find_channel(channel_name) {
            Some(i) => i,
            None => return Err(ChannelError::ChannelNotFound),
        };
        let k = match self.find_agent(agent_id.as_str()) {
            Some(k) => k,
            None => return Err(ChannelError::AgentNotInitiated),
        };
        let ghost old_self = *self;
        proof {
            old_self.lemma_channel_at(i as int);
        }
        let agent_tx = self.agent_sender_map[k].sender.clone();
        let record_agent = agent_id.clone();
        let ghost a = agent_id@;
        let _sender = self.channel_map[i].join(agent_id);
        let channel_rx = self.channel_map[i].subscribe();
        proof {
            Self::lemma_update_channel(&old_self, self, i as int);
            assert forall|x: int| 0 <= x < self.channel_map@.len() implies (#[trigger] self.channel_map@[x]).wf() by {
                if x != i {
                    assert(self.channel_map@[x] == old_self.channel_map@[x]);
                }
            }
            assert forall|x: int, y: int|
                0 <= x < self.channel_map@.len() && 0 <= y < self.channel_map@[x].members().len()
                    implies self.has_agent(#[trigger] self.channel_map@[x].members()[y]) by {
                if x != i {
                    assert(self.channel_map@[x] == old_self.channel_map@[x]);
                    assert(old_self.has_agent(old_self.channel_map@[x].members()[y]));
                } else {
                    let m = self.channel_map@[x].members()[y];
                    let om = old_self.channel_map@[x].members();
                    if y < om.len() {
                        assert(m == om[y]);
                        assert(old_self.has_agent(om[y]));
                    } else {
                        assert(self.agent_ids()[k as int] == a);
                    }
                }
            }
        }
        let ghost joined_self = *self;
        match self.find_record(record_agent.as_str(), channel_name) {
            Some(_) => {},
            None => {
                let ghost keys = self.record_keys();
                self.agent_task_map.push(ChannelAgent {
                    agent_id: record_agent,
                    channel_name: channel_name.to_owned(),
                    join_task: None,
                });
                proof {
                    assert(self.record_keys() =~= keys.push((a, channel_name@)));
                    assert forall|x: Seq<char>, m: Seq<char>| #[trigger] self.forwards(x, m) == (joined_self.forwards(x, m) || (x == a && m == channel_name@)) by {
                        if self.forwards(x, m) && !(x == a && m == channel_name@) {
                            let z = choose|z: int| 0 <= z < self.record_keys().len() && self.record_keys()[z] == (x, m);
                            assert(keys[z] == (x, m));
                        }
                        if joined_self.forwards(x, m) {
                            let z = choose|z: int| 0 <= z < keys.len() && keys[z] == (x, m);
                            assert(self.record_keys()[z] == (x, m));
                        }
                        if x == a && m == channel_name@ {
                            assert(self.record_keys()[keys.len() as int] == (x, m));
                        }
                    }
                }
            },
        }
        proof {
            let n = channel_name@;
            assert(self.forwards(a, n));
            assert(self.channels() == joined_self.channels());
            assert forall|x: Seq<char>, m: Seq<char>| #[trigger] self.forwards(x, m)
                implies self.channels().contains_key(m) && self.channels()[m].contains(x) by {
                lemma_joined_contains(old_self.members_of(n), a, x);
                if !(x == a && m == n) {
                    assert(old_self.forwards(x, m));
                }
            }
            assert forall|x: Seq<char>, m: Seq<char>| self.channels().contains_key(m) && #[trigger] self.channels()[m].contains(x)
                implies self.forwards(x, m) by {
                lemma_joined_contains(old_self.members_of(n), a, x);
                if m != n || x != a {
                    if m == n {
                        assert(old_self.channels()[n].contains(x));
                    } else {
                        assert(old_self.channels()[m].contains(x));
                    }
                }
            }
        }
        Ok(Wiring { channel_rx, agent_tx })
    }

    /// Takes `agent` out of channel `name`, aborting the join's forwarding
    /// task; returns how many members remain. Fails where the channel does
    /// not exist.
    pub fn leave_channel(&mut self, name: String, agent: String) -> (r: Result<usize, ChannelError>)
        requires
            old(self).wf(),
        ensures
            final(self).wf(),
            r is Ok <==> old(self).has_channel(name@),
            r is Err ==> r->Err_0 == ChannelError::ChannelNotFound,
            r is Ok ==> r->Ok_0 == without(old(self).members_of(name@), agent@).len(),
            final(self).channels() == if r is Ok {
                old(self).channels().insert(name@, without(old(self).members_of(name@), agent@))
            } else {
                old(self).channels()
            },
            final(self).agents() == old(self).agents(),
            forall|n: Seq<char>| final(self).listening(n) == old(self).listening(n),
            forall|c: Seq<char>| final(self).has_conn(c) == old(self).has_conn(c),
    {
        let i = match self.find_channel(name.as_str()) {
            Some(i) => i,
            None => return Err(ChannelError::ChannelNotFound),
        };
        let ghost old_self = *self;
        proof {
            old_self.lemma_channel_at(i as int);
        }
        let ghost a = agent@;
        self.drop_records(Some(agent.as_str()), Some(name.as_str()));
        let ghost dropped = *self;
        proof {
            assert forall|x: Seq<char>, m: Seq<char>| #[trigger] dropped.forwards(x, m)
                == (old_self.forwards(x, m) && !(x == a && m == name@)) by {}
        }
        self.channel_map[i].leave(agent);
        proof {
            assert(self.agent_task_map == dropped.agent_task_map);
            assert forall|x: Seq<char>, m: Seq<char>| #[trigger] self.forwards(x, m) == dropped.forwards(x, m) by {}
        }
        let count = self.channel_map[i].agents().len();
        proof {
            Self::lemma_update_channel(&old_self, self, i as int);
            lemma_without_within(old_self.channel_map@[i as int].members(), a);
            assert forall|x: int| 0 <= x < self.channel_map@.len() implies (#[trigger] self.channel_map@[x]).wf() by {
                if x != i {
                    assert(self.channel_map@[x] == old_self.channel_map@[x]);
                }
            }
            assert forall|x: int, y: int|
                0 <= x < self.channel_map@.len() && 0 <= y < self.channel_map@[x].members().len()
                    implies self.has_agent(#[trigger] self.channel_map@[x].members()[y]) by {
                if x != i {
                    assert(self.channel_map@[x] == old_self.channel_map@[x]);
                    assert(old_self.has_agent(old_self.channel_map@[x].members()[y]));
                } else {
                    let m = self.channel_map@[x].members()[y];
                    let om = old_self.channel_map@[x].members();
                    assert(self.channel_map@[x].members().contains(m));
                    assert(om.contains(m));
                    let z = choose|z: int| 0 <= z < om.len() && om[z] == m;
                    assert(old_self.has_agent(old_self.channel_map@[x].members()[z]));
                }
            }
            let n = name@;
            assert forall|x: Seq<char>, m: Seq<char>| #[trigger] self.forwards(x, m)
                implies self.channels().contains_key(m) && self.channels()[m].contains(x) by {
                lemma_without_contains(old_self.members_of(n), a, x);
                assert(old_self.forwards(x, m));
            }
            assert forall|x: Seq<char>, m: Seq<char>| self.channels().contains_key(m) && #[trigger] self.channels()[m].contains(x)
                implies self.forwards(x, m) by {
                lemma_without_contains(old_self.members_of(n), a, x);
                if m == n {
                    assert(old_self.channels()[n].contains(x));
                } else {
                    assert(old_self.channels()[m].contains(x));
                }
            }
        }
        Ok(count)
    }

    /// Removes channel `channel_name`, aborting its Redis listening task and
    /// the forwarding tasks of its joins; nothing happens where it does not
    /// exist.
    pub fn remove_channel(&mut self, channel_name: String)
        requires
            old(self).wf(),
        ensures
            final(self).wf(),
            final(self).channels() == old(self).channels().remove(channel_name@),
            forall|n: Seq<char>| n != channel_name@ ==> final(self).listening(n) == old(self).listening(n),
            !final(self).listening(channel_name@),
            final(self).agents() == old(self).agents(),
            forall|c: Seq<char>| final(self).has_conn(c) == old(self).has_conn(c),
    {
        match self.find_channel(channel_name.as_str()) {
            None => {
                proof {
                    assert(self.channels() =~= self.channels().remove(channel_name@));
                }
            },
            Some(i) => {
                let ghost old_self = *self;
                self.channel_map[i].stop_listening();
                let ghost stopped = *self;
                self.drop_records(None, Some(channel_name.as_str()));
                let ghost dropped = *self;
                proof {
                    assert(stopped.agent_task_map == old_self.agent_task_map);
                    assert forall|x: Seq<char>, m: Seq<char>| #[trigger] dropped.forwards(x, m)
                        == (old_self.forwards(x, m) && m != channel_name@) by {
                        assert(stopped.forwards(x, m) == old_self.forwards(x, m));
                    }
                }
                let _gone = self.channel_map.remove(i);
                proof {
                    assert(self.agent_task_map == dropped.agent_task_map);
                    assert forall|x: Seq<char>, m: Seq<char>| #[trigger] self.forwards(x, m) == dropped.forwards(x, m) by {}
                }
                proof {
                    let len = old_self.channel_map@.len();
                    let n = channel_name@;
                    assert(self.channel_map@ =~= old_self.channel_map@.remove(i as int));
                    assert(self.channel_names() =~= old_self.channel_names().remove(i as int));
                    lemma_remove_is_without(old_self.channel_names(), i as int);
                    assert forall|m: Seq<char>| old_self.has_channel(m) && m != n implies
                        self.has_channel(m) && self.members_of(m) == old_self.members_of(m)
                        && self.listening(m) == old_self.listening(m) by {
                        let j = old_self.lemma_channel_of(m);
                        assert(j != i);
                        let j2 = if j < i { j } else { j - 1 };
                        assert(self.channel_map@[j2] == old_self.channel_map@[j]);
                        self.lemma_channel_at(j2);
                    }
                    assert forall|m: Seq<char>| self.has_channel(m) implies old_self.has_channel(m) && m != n by {
                        let j = self.lemma_channel_of(m);
                        let j2 = if j < i { j } else { j + 1 };
                        assert(self.channel_map@[j] == old_self.channel_map@[j2]);
                        old_self.lemma_channel_at(j2);
                        old_self.lemma_channel_at(i as int);
                        assert(old_self.channel_names()[j2] != old_self.channel_names()[i as int]);
                    }
                    assert(self.channels() =~= old_self.channels().remove(n));
                    assert forall|x: Seq<char>, m: Seq<char>| #[trigger] self.forwards(x, m)
                        implies self.channels().contains_key(m) && self.channels()[m].contains(x) by {
                        assert(old_self.forwards(x, m));
                    }
                    assert forall|x: Seq<char>, m: Seq<char>| self.channels().contains_key(m) && #[trigger] self.channels()[m].contains(x)
                        implies self.forwards(x, m) by {
                        assert(old_self.channels()[m].contains(x));
                    }
                    assert forall|x: int| 0 <= x < self.channel_map@.len() implies (#[trigger] self.channel_map@[x]).wf() by {
                        let x2 = if x < i { x } else { x + 1 };
                        assert(self.channel_map@[x] == old_self.channel_map@[x2]);
                    }
                    assert forall|x: int, y: int|
                        0 <= x < self.channel_map@.len() && 0 <= y < self.channel_map@[x].members().len()
                            implies self.has_agent(#[trigger] self.channel_map@[x].members()[y]) by {
                        let x2 = if x < i { x } else { x + 1 };
                        assert(self.channel_map@[x] == old_self.channel_map@[x2]);
                        assert(old_self.has_agent(old_self.channel_map@[x2].members()[y]));
                    }
                }
            },
        }
    }

    /// Removes agent `agent_id`: takes it out of every channel, aborts its
    /// forwarding and relay tasks and drops its mailbox. Returns its external
    /// identity, where it had one.
    pub fn remove_agent(&mut self, agent_id: String) -> (r: Option<String>)
        requires
            old(self).wf(),
        ensures
            final(self).wf(),
            opt_view(r) == if old(self).has_agent(agent_id@) { old(self).external_id_of(agent_id@) } else { None },
            final(self).agents() == old(self).agents().remove(agent_id@),
            forall|n: Seq<char>| final(self).has_channel(n) == old(self).has_channel(n),
            forall|n: Seq<char>| old(self).has_channel(n) ==> final(self).members_of(n) == without(old(self).members_of(n), agent_id@),
            forall|n: Seq<char>| final(self).listening(n) == old(self).listening(n),
            forall|c: Seq<char>| final(self).has_conn(c) == old(self).has_conn(c),
    {
        let ghost a = agent_id@;
        let ghost old_self = *self;
        let mut c: usize = 0;
        while c < self.channel_map.len()
            invariant
                old_self.wf(),
                self.channel_map@.len() == old_self.channel_map@.len(),
                c <= self.channel_map@.len(),
                self.agent_sender_map == old_self.agent_sender_map,
                self.conn_sender_map == old_self.conn_sender_map,
                self.agent_task_map == old_self.agent_task_map,
                agent_id@ == a,
                forall|x: int| 0 <= x < self.channel_map@.len() ==> {
                    &&& (#[trigger] self.channel_map@[x]).topic() == old_self.channel_map@[x].topic()
                    &&& self.channel_map@[x].is_listening() == old_self.channel_map@[x].is_listening()
                    &&& self.channel_map@[x].wf()
                    &&& self.channel_map@[x].members() == if x < c {
                        without(old_self.channel_map@[x].members(), a)
                    } else {
                        old_self.channel_map@[x].members()
                    }
                },
            decreases self.channel_map@.len() - c,
        {
            proof {
                assert(self.channel_map@[c as int].wf());
            }
            self.channel_map[c].leave(agent_id.clone());
            c = c + 1;
        }
        proof {
            assert(self.channel_names() =~= old_self.channel_names());
            assert forall|n: Seq<char>| old_self.has_channel(n) implies
                self.members_of(n) == without(old_self.members_of(n), a)
                && self.listening(n) == old_self.listening(n) by {
                let j = old_self.lemma_channel_of(n);
                self.lemma_channel_at(j);
            }
            assert forall|n: Seq<char>| !old_self.has_channel(n) implies self.listening(n) == old_self.listening(n) by {}
        }
        self.drop_records(Some(agent_id.as_str()), None);
        proof {
            assert forall|x: Seq<char>, m: Seq<char>| #[trigger] self.forwards(x, m)
                implies self.channels().contains_key(m) && self.channels()[m].contains(x) by {
                assert(old_self.forwards(x, m));
                lemma_without_contains(old_self.members_of(m), a, x);
                self.lemma_channels_key(m);
                old_self.lemma_channels_key(m);
            }
            assert forall|x: Seq<char>, m: Seq<char>| self.channels().contains_key(m) && #[trigger] self.channels()[m].contains(x)
                implies self.forwards(x, m) by {
                lemma_without_contains(old_self.members_of(m), a, x);
                self.lemma_channels_key(m);
                old_self.lemma_channels_key(m);
                assert(old_self.channels()[m].contains(x));
            }
        }
        let ghost mid = *self;
        match self.find_agent(agent_id.as_str()) {
            None => {
                proof {
                    assert(self.agents() =~= old_self.agents().remove(a));
                    assert forall|x: int, y: int|
                        0 <= x < self.channel_map@.len() && 0 <= y < self.channel_map@[x].members().len()
                            implies self.has_agent(#[trigger] self.channel_map@[x].members()[y]) by {
                        let m = self.channel_map@[x].members()[y];
                        let om = old_self.channel_map@[x].members();
                        lemma_without_within(om, a);
                        assert(self.channel_map@[x].members().contains(m));
                        let z = choose|z: int| 0 <= z < om.len() && om[z] == m;
                        assert(old_self.has_agent(old_self.channel_map@[x].members()[z]));
                    }
                }
                None
            },
            Some(k) => {
                proof {
                    old_self.lemma_agent_at(k as int);
                }
                let entry = self.agent_sender_map.remove(k);
                if let Some(t) = &entry.relay_task {
                    t.abort();
                }
                proof {
                    assert(self.channels() =~= mid.channels());
                    Self::lemma_forwarding_kept(&mid, self);
                    let ids = old_self.agent_ids();
                    assert(self.agent_ids() =~= ids.remove(k as int));
                    lemma_remove_is_without(ids, k as int);
                    assert forall|b: Seq<char>| old_self.has_agent(b) && b != a implies
                        self.has_agent(b) && self.external_id_of(b) == old_self.external_id_of(b) by {
                        let j = old_self.lemma_agent_of(b);
                        assert(j != k);
                        let j2 = if j < k { j } else { j - 1 };
                        assert(self.agent_sender_map@[j2] == old_self.agent_sender_map@[j]);
                        self.lemma_agent_at(j2);
                    }
                    assert forall|b: Seq<char>| self.has_agent(b) implies old_self.has_agent(b) && b != a by {
                        let j = self.lemma_agent_of(b);
                        let j2 = if j < k { j } else { j + 1 };
                        assert(self.agent_sender_map@[j] == old_self.agent_sender_map@[j2]);
                        old_self.lemma_agent_at(j2);
                        assert(ids[j2] != ids[k as int]);
                    }
                    assert(self.agents() =~= old_self.agents().remove(a));
                    assert forall|x: int, y: int|
                        0 <= x < self.channel_map@.len() && 0 <= y < self.channel_map@[x].members().len()
                            implies self.has_agent(#[trigger] self.channel_map@[x].members()[y]) by {
                        let m = self.channel_map@[x].members()[y];
                        let om = old_self.channel_map@[x].members();
                        lemma_without_within(om, a);
                        assert(self.channel_map@[x].members().contains(m));
                        let z = choose|z: int| 0 <= z < om.len() && om[z] == m;
                        assert(old_self.has_agent(old_self.channel_map@[x].members()[z]));
                    }
                }
                entry.external_id
            },
        }
    }

    /// The leave procedure's part in the registries: removes agent `agent_id`
    /// (from every channel), then removes channel `channel_name` where it is
    /// left without members and is not one of the special channels. Returns
    /// the agent's external identity, where it had one.
    pub fn depart(&mut self, channel_name: String, agent_id: String) -> (r: Option<String>)
        requires
            old(self).wf(),
        ensures
            final(self).wf(),
            opt_view(r) == if old(self).has_agent(agent_id@) { old(self).external_id_of(agent_id@) } else { None },
            departed(*old(self), *final(self), channel_name@, agent_id@),
    {
        let ghost old_self = *self;
        let ghost n = channel_name@;
        let ghost a = agent_id@;
        let external_id = self.remove_agent(agent_id.clone());
        let ghost mid = *self;
        proof {
            old_self.lemma_channels_key(n);
            mid.lemma_channels_key(n);
            if old_self.has_channel(n) {
                lemma_without_within(old_self.members_of(n), a);
                assert(!mid.members_of(n).contains(a));
                lemma_without_absent(mid.members_of(n), a);
            }
        }
        match self.leave_channel(channel_name.clone(), agent_id) {
            Ok(count) => {
                let ghost after_leave = *self;
                proof {
                    after_leave.lemma_channels_key(n);
                }
                if count == 0 && !is_special_channel(channel_name.as_str()) {
                    self.remove_channel(channel_name);
                    proof {
                        self.lemma_channels_key(n);
                        assert forall|m: Seq<char>| #[trigger] self.has_channel(m) implies
                            self.members_of(m) == without(old_self.members_of(m), a) by {
                            self.lemma_channels_key(m);
                            after_leave.lemma_channels_key(m);
                            mid.lemma_channels_key(m);
                            old_self.lemma_channels_key(m);
                        }
                        assert forall|m: Seq<char>| m != n implies self.has_channel(m) == old_self.has_channel(m) by {
                            self.lemma_channels_key(m);
                            after_leave.lemma_channels_key(m);
                            mid.lemma_channels_key(m);
                        }
                    }
                } else {
                    proof {
                        assert forall|m: Seq<char>| #[trigger] self.has_channel(m) implies
                            self.members_of(m) == without(old_self.members_of(m), a) by {
                            self.lemma_channels_key(m);
                            mid.lemma_channels_key(m);
                            old_self.lemma_channels_key(m);
                        }
                        assert forall|m: Seq<char>| self.has_channel(m) == old_self.has_channel(m) by {
                            self.lemma_channels_key(m);
                            mid.lemma_channels_key(m);
                        }
                    }
                }
            },
            Err(_) => {
                proof {
                    assert forall|m: Seq<char>| #[trigger] self.has_channel(m) implies
                        self.members_of(m) == without(old_self.members_of(m), a) by {
                        self.lemma_channels_key(m);
                        mid.lemma_channels_key(m);
                    }
                    assert forall|m: Seq<char>| self.has_channel(m) == old_self.has_channel(m) by {
                        self.lemma_channels_key(m);
                        mid.lemma_channels_key(m);
                    }
                }
            },
        }
        external_id
    }

    proof fn lemma_channels_key(&self, n: Seq<char>)
        ensures
            self.channels().contains_key(n) == self.has_channel(n),
            self.has_channel(n) ==> self.channels()[n] == self.members_of(n),
    {
    }

    proof fn lemma_agents_key(&self, a: Seq<char>)
        ensures
            self.agents().contains_key(a) == self.has_agent(a),
            self.has_agent(a) ==> self.agents()[a] == self.external_id_of(a),
    {
    }

    /// The number of channels.
    pub fn channel_count(&self) -> (r: usize)
        requires
            self.wf(),
        ensures
            r == self.channels().dom().len(),
    {
        proof {
            self.lemma_channel_domain();
        }
        self.channel_map.len()
    }

    proof fn lemma_channel_domain(&self)
        requires
            self.wf(),
        ensures
            self.channels().dom() == self.channel_names().to_set(),
            self.channels().dom().len() == self.channel_map@.len(),
    {
        assert(self.channels().dom() =~= self.channel_names().to_set());
        self.channel_names().unique_seq_to_set();
    }

    /// Is there a channel named `name`?
    pub fn contains_channel(&self, name: &str) -> (r: bool)
        ensures
            r == self.has_channel(name@),
    {
        self.find_channel(name).is_some()
    }

    /// The names of the channels, in the order of their creation.
    pub fn channel_list(&self) -> (r: Vec<String>)
        ensures
            r@.map_values(|s: String| s@) == self.channel_names(),
    {
        let mut out: Vec<String> = Vec::new();
        let mut i: usize = 0;
        while i < self.channel_map.len()
            invariant
                i <= self.channel_map@.len(),
                out@.len() == i,
                out@.map_values(|s: String| s@) == self.channel_names().take(i as int),
            decreases self.channel_map@.len() - i,
        {
            let name = self.channel_map[i].name();
            let ghost before = out@;
            out.push(name);
            i = i + 1;
            proof {
                assert(out@ == before.push(name));
                assert(self.channel_names()[i - 1] == name@);
                assert forall|k: int| 0 <= k < i implies out@.map_values(|s: String| s@)[k] == self.channel_names().take(i as int)[k] by {
                    if k < i - 1 {
                        assert(out@[k] == before[k]);
                        assert(before.map_values(|s: String| s@)[k] == self.channel_names().take(i - 1)[k]);
                    }
                }
                assert(out@.map_values(|s: String| s@) =~= self.channel_names().take(i as int));
            }
        }
        proof {
            assert(self.channel_names().take(i as int) =~= self.channel_names());
        }
        out
    }

    /// The members of channel `name`, in the order in which they joined, or
    /// `None` where there is no such channel.
    pub fn channel_agents(&self, name: &str) -> (r: Option<Vec<String>>)
        requires
            self.wf(),
        ensures
            match r {
                Some(v) => self.has_channel(name@) && v@.map_values(|s: String| s@) == self.members_of(name@),
                None => !self.has_channel(name@),
            },
    {
        match self.find_channel(name) {
            Some(i) => {
                proof {
                    self.lemma_channel_at(i as int);
                }
                let v = self.channel_map[i].agents().clone();
                proof {
                    assert(v@.map_values(|s: String| s@) =~= crate::channel::views(v@));
                }
                Some(v)
            },
            None => None,
        }
    }

    /// Does channel `name` exist without a Redis listening task?
    pub fn needs_listener(&self, name: &str) -> (r: bool)
        requires
            self.wf(),
        ensures
            r == (self.has_channel(name@) && !self.listening(name@)),
    {
        match self.find_channel(name) {
            Some(i) => {
                proof {
                    self.lemma_channel_at(i as int);
                }
                !self.channel_map[i].is_listening_now()
            },
            None => false,
        }
    }

    /// Records `task` as channel `name`'s Redis listening task. Where the
    /// channel does not exist or has one already, `task` is aborted instead.
    pub fn attach_listen_task(&mut self, name: &str, task: JoinHandle<()>)
        requires
            old(self).wf(),
        ensures
            final(self).wf(),
            final(self).channels() == old(self).channels(),
            forall|n: Seq<char>| final(self).listening(n) == (old(self).listening(n) || (n == name@ && old(self).has_channel(n))),
            final(self).agents() == old(self).agents(),
            forall|c: Seq<char>| final(self).has_conn(c) == old(self).has_conn(c),
    {
        match self.find_channel(name) {
            Some(i) => {
                let ghost old_self = *self;
                proof {
                    old_self.lemma_channel_at(i as int);
                }
                if self.channel_map[i].is_listening_now() {
                    task.abort();
                } else {
                    self.channel_map[i].set_listen_task(task);
                    proof {
                        Self::lemma_update_channel(&old_self, self, i as int);
                        assert(self.channels() =~= old_self.channels());
                        Self::lemma_forwarding_kept(&old_self, self);
                        assert forall|x: int| 0 <= x < self.channel_map@.len() implies (#[trigger] self.channel_map@[x]).wf() by {
                            if x != i {
                                assert(self.channel_map@[x] == old_self.channel_map@[x]);
                            }
                        }
                        assert forall|x: int, y: int|
                            0 <= x < self.channel_map@.len() && 0 <= y < self.channel_map@[x].members().len()
                                implies self.has_agent(#[trigger] self.channel_map@[x].members()[y]) by {
                            assert(old_self.has_agent(old_self.channel_map@[x].members()[y]));
                        }
                    }
                }
            },
            None => {
                task.abort();
            },
        }
    }

    /// Records `task` as the forwarding task of agent `agent_id`'s join of
    /// channel `channel_name`, aborting the one it replaces. Where there is
    /// no such join, `task` is aborted instead.
    pub fn attach_join_task(&mut self, agent_id: &str, channel_name: &str, task: JoinHandle<()>)
        requires
            old(self).wf(),
        ensures
            final(self).wf(),
            final(self).channels() == old(self).channels(),
            forall|n: Seq<char>| final(self).listening(n) == old(self).listening(n),
            final(self).agents() == old(self).agents(),
            forall|c: Seq<char>| final(self).has_conn(c) == old(self).has_conn(c),
    {
        match self.find_record(agent_id, channel_name) {
            Some(i) => {
                let ghost old_self = *self;
                if let Some(t) = &self.agent_task_map[i].join_task {
                    t.abort();
                }
                self.agent_task_map[i].join_task = Some(task);
                proof {
                    assert(self.record_keys() =~= old_self.record_keys());
                    assert(self.channels() =~= old_self.channels());
                    Self::lemma_forwarding_kept(&old_self, self);
                }
            },
            None => {
                task.abort();
            },
        }
    }

    /// Records `task` as the relay task of agent `agent_id`, aborting the one
    /// it replaces. Where the agent has no mailbox, `task` is aborted instead.
    pub fn attach_relay_task(&mut self, agent_id: &str, task: JoinHandle<()>)
        requires
            old(self).wf(),
        ensures
            final(self).wf(),
            final(self).channels() == old(self).channels(),
            forall|n: Seq<char>| final(self).listening(n) == old(self).listening(n),
            final(self).agents() == old(self).agents(),
            forall|c: Seq<char>| final(self).has_conn(c) == old(self).has_conn(c),
    {
        match self.find_agent(agent_id) {
            Some(k) => {
                let ghost old_self = *self;
                if let Some(t) = &self.agent_sender_map[k].relay_task {
                    t.abort();
                }
                self.agent_sender_map[k].relay_task = Some(task);
                proof {
                    assert(self.agent_ids() =~= old_self.agent_ids());
                    assert forall|b: Seq<char>| old_self.has_agent(b) implies self.external_id_of(b) == old_self.external_id_of(b) by {
                        let j = old_self.lemma_agent_of(b);
                        self.lemma_agent_at(j);
                    }
                    assert(self.agents() =~= old_self.agents());
                    assert(self.channels() =~= old_self.channels());
                    Self::lemma_forwarding_kept(&old_self, self);
                }
            },
            None => {
                task.abort();
            },
        }
    }

    /// A join has its forwarding task exactly while the agent is a member of
    /// the channel.
    pub proof fn lemma_forwarding_iff_member(&self, a: Seq<char>, n: Seq<char>)
        requires
            self.wf(),
        ensures
            self.forwards(a, n) <==> (self.has_channel(n) && self.members_of(n).contains(a)),
    {
        self.lemma_channels_key(n);
        if self.forwards(a, n) {
            assert(self.channels().contains_key(n) && self.channels()[n].contains(a));
        }
        if self.has_channel(n) && self.members_of(n).contains(a) {
            assert(self.channels()[n].contains(a));
        }
    }

    /// An agent is a member of a channel at most once.
    pub proof fn lemma_members_unique(&self, n: Seq<char>)
        requires
            self.wf(),
            self.has_channel(n),
        ensures
            self.members_of(n).no_duplicates(),
    {
        let j = self.lemma_channel_of(n);
        assert(self.channel_map@[j].wf());
        self.channel_map@[j].lemma_members_unique();
    }

    /// Only a channel that exists has a listening task.
    pub proof fn lemma_listening_needs_channel(&self, n: Seq<char>)
        ensures
            self.listening(n) ==> self.has_channel(n),
    {
    }

    /// Every member of a channel is a registered agent.
    pub proof fn lemma_members_are_agents(&self, n: Seq<char>, k: int)
        requires
            self.wf(),
            self.has_channel(n),
            0 <= k < self.members_of(n).len(),
        ensures
            self.has_agent(self.members_of(n)[k]),
    {
        let j = self.lemma_channel_of(n);
        assert(self.has_agent(self.channel_map@[j].members()[k]));
    }

    /// The registered agents of connection `conn_id`.
    fn agents_of_connection(&self, conn_id: &str) -> (r: Vec<String>)
        ensures
            views(r@) == of_connection(self.agent_ids(), conn_id@),
    {
        let mut out: Vec<String> = Vec::new();
        let mut i: usize = 0;
        while i < self.agent_sender_map.len()
            invariant
                i <= self.agent_sender_map@.len(),
                views(out@) == of_connection(self.agent_ids().take(i as int), conn_id@),
            decreases self.agent_sender_map@.len() - i,
        {
            let id = self.agent_sender_map[i].id.clone();
            let ghost before = out@;
            let ghost ids = self.agent_ids();
            if is_agent_of_connection(id.as_str(), conn_id) {
                out.push(id);
            }
            proof {
                assert(ids.take(i + 1).drop_last() =~= ids.take(i as int));
                assert(ids.take(i + 1).last() == id@);
                assert(views(out@) =~= of_connection(ids.take(i + 1), conn_id@));
            }
            i = i + 1;
        }
        proof {
            assert(self.agent_ids().take(i as int) =~= self.agent_ids());
        }
        out
    }

    /// The channels that agent `agent_id` is a member of.
    fn channels_of_agent(&self, agent_id: &str) -> (r: Vec<String>)
        requires
            self.wf(),
        ensures
            forall|n: Seq<char>| #[trigger] views(r@).contains(n) <==> (self.has_channel(n) && self.members_of(n).contains(agent_id@)),
            views(r@).no_duplicates(),
    {
        let mut out: Vec<String> = Vec::new();
        let mut i: usize = 0;
        while i < self.channel_map.len()
            invariant
                self.wf(),
                i <= self.channel_map@.len(),
                forall|n: Seq<char>| #[trigger] views(out@).contains(n) <==> (exists|k: int| 0 <= k < i
                    && self.channel_names()[k] == n && self.channel_map@[k].members().contains(agent_id@)),
                views(out@).no_duplicates(),
            decreases self.channel_map@.len() - i,
        {
            proof {
                self.lemma_channel_at(i as int);
            }
            let ghost before = out@;
            let agents = self.channel_map[i].agents();
            let found = crate::channel::position(agents, agent_id);
            proof {
                if let Some(p) = found {
                    assert(views(agents@)[p as int] == agent_id@);
                    assert(self.channel_map@[i as int].members()[p as int] == agent_id@);
                }
            }
            if found.is_some() {
                let nm = self.channel_map[i].name();
                proof {
                    assert(self.channel_names()[i as int] == nm@);
                    assert(!views(before).contains(nm@)) by {
                        if views(before).contains(nm@) {
                            let k = choose|k: int| 0 <= k < i && self.channel_names()[k] == nm@
                                && self.channel_map@[k].members().contains(agent_id@);
                            assert(self.channel_names()[k] == self.channel_names()[i as int]);
                        }
                    }
                }
                out.push(nm);
                proof {
                    assert(views(out@) =~= views(before).push(nm@));
                }
            }
            proof {
                let v = views(out@);
                assert forall|n: Seq<char>| #[trigger] views(out@).contains(n) <==> (exists|k: int| 0 <= k < i + 1
                    && self.channel_names()[k] == n && self.channel_map@[k].members().contains(agent_id@)) by {
                    if views(out@).contains(n) && !views(before).contains(n) {
                        let z = choose|z: int| 0 <= z < v.len() && v[z] == n;
                        assert(z == before.len());
                    }
                    if views(before).contains(n) {
                        let z = choose|z: int| 0 <= z < views(before).len() && views(before)[z] == n;
                        assert(v[z] == n);
                    }
                    if exists|k: int| 0 <= k < i + 1 && self.channel_names()[k] == n && self.channel_map@[k].members().contains(agent_id@) {
                        let k = choose|k: int| 0 <= k < i + 1 && self.channel_names()[k] == n
                            && self.channel_map@[k].members().contains(agent_id@);
                        if k == i {
                            assert(v[before.len() as int] == n);
                        }
                    }
                }
            }
            i = i + 1;
        }
        proof {
            assert forall|n: Seq<char>| #[trigger] views(out@).contains(n) <==> (self.has_channel(n) && self.members_of(n).contains(agent_id@)) by {
                if self.has_channel(n) {
                    let j = self.lemma_channel_of(n);
                    assert(self.channel_names()[j] == n);
                }
                if views(out@).contains(n) {
                    let k = choose|k: int| 0 <= k < i && self.channel_names()[k] == n
                        && self.channel_map@[k].members().contains(agent_id@);
                    self.lemma_channel_at(k);
                }
            }
        }
        out
    }

    /// Closes connection `name`: drops its mailbox and removes each of its
    /// agents (from every channel, with their tasks). A channel left without
    /// members by that is removed unless it is special. Returns, for the
    /// presence announcements, each agent with each channel it left.
    pub fn remove_connection(&mut self, name: String) -> (r: Vec<Departure>)
        requires
            old(self).wf(),
        ensures
            final(self).wf(),
            forall|c: Seq<char>| final(self).has_conn(c) == (old(self).has_conn(c) && c != name@),
            forall|a: Seq<char>| final(self).has_agent(a) == (old(self).has_agent(a) && !agent_of_connection(a, name@)),
            forall|a: Seq<char>| #[trigger] final(self).has_agent(a) ==> final(self).external_id_of(a) == old(self).external_id_of(a),
            forall|n: Seq<char>| final(self).has_channel(n) ==> old(self).has_channel(n),
            forall|n: Seq<char>| old(self).has_channel(n) && special_channel(n) ==> final(self).has_channel(n),
            left_only(*old(self), *final(self), of_connection(old(self).agent_ids(), name@)),
            forall|k: int| 0 <= k < r@.len() ==> departure_of(*old(self), name@, #[trigger] r@[k]),
            forall|n: Seq<char>, a: Seq<char>| old(self).has_channel(n) && #[trigger] old(self).members_of(n).contains(a)
                && agent_of_connection(a, name@) ==> departure_listed(r@, n, a),
            departures_distinct(r@),
    {
        match self.find_conn(name.as_str()) {
            Some(i) => {
                let ghost old_self = *self;
                let _gone = self.conn_sender_map.remove(i);
                proof {
                    assert(self.channels() =~= old_self.channels());
                    Self::lemma_forwarding_kept(&old_self, self);
                    let ids = old_self.conn_ids();
                    assert(self.conn_ids() =~= ids.remove(i as int));
                    lemma_remove_is_without(ids, i as int);
                    assert forall|c: Seq<char>| self.has_conn(c) == (old_self.has_conn(c) && c != name@) by {
                        if self.has_conn(c) {
                            let j = choose|j: int| 0 <= j < self.conn_ids().len() && self.conn_ids()[j] == c;
                            let j2 = if j < i { j } else { j + 1 };
                            assert(ids[j2] == c);
                            assert(ids[j2] != ids[i as int]);
                        }
                        if old_self.has_conn(c) && c != name@ {
                            let j = choose|j: int| 0 <= j < ids.len() && ids[j] == c;
                            assert(j != i);
                            let j2 = if j < i { j } else { j - 1 };
                            assert(self.conn_ids()[j2] == c);
                        }
                    }
                }
            },
            None => {},
        }
        proof {
            assert(self.channel_map == old(self).channel_map);
            assert(self.agent_sender_map == old(self).agent_sender_map);
        }
        let ghost start = *self;
        let doomed = self.agents_of_connection(name.as_str());
        proof {
            lemma_of_connection(start.agent_ids(), name@);
            lemma_of_connection_unique(start.agent_ids(), name@);
        }
        let mut out: Vec<Departure> = Vec::new();
        let mut j: usize = 0;
        while j < doomed.len()
            invariant
                self.wf(),
                j <= doomed@.len(),
                forall|c: Seq<char>| self.has_conn(c) == start.has_conn(c),
                forall|a: Seq<char>| #[trigger] views(doomed@).contains(a) <==> (start.has_agent(a) && agent_of_connection(a, name@)),
                forall|a: Seq<char>| #[trigger] self.has_agent(a) == (start.has_agent(a) && !views(doomed@.take(j as int)).contains(a)),
                forall|a: Seq<char>| #[trigger] self.has_agent(a) ==> self.external_id_of(a) == start.external_id_of(a),
                forall|n: Seq<char>| self.has_channel(n) ==> start.has_channel(n),
                forall|n: Seq<char>| start.has_channel(n) && special_channel(n) ==> self.has_channel(n),
                left_only(start, *self, views(doomed@.take(j as int))),
                views(doomed@) == of_connection(start.agent_ids(), name@),
                views(doomed@).no_duplicates(),
                forall|k: int| 0 <= k < out@.len() ==> departure_of(start, name@, #[trigger] out@[k])
                    && views(doomed@.take(j as int)).contains(out@[k].agent_id@),
                forall|n: Seq<char>, a: Seq<char>| views(doomed@.take(j as int)).contains(a) && start.has_channel(n)
                    && #[trigger] start.members_of(n).contains(a) ==> departure_listed(out@, n, a),
                departures_distinct(out@),
            decreases doomed@.len() - j,
        {
            let agent = doomed[j].clone();
            let chans = self.channels_of_agent(agent.as_str());
            let ghost before = *self;
            let ghost tj0 = views(doomed@.take(j as int));
            proof {
                assert(views(doomed@)[j as int] == agent@);
                assert(views(doomed@).contains(agent@));
                assert(!tj0.contains(agent@)) by {
                    if tj0.contains(agent@) {
                        let z = choose|z: int| 0 <= z < tj0.len() && tj0[z] == agent@;
                        assert(views(doomed@)[z] == views(doomed@)[j as int]);
                    }
                }
                assert forall|n: Seq<char>| #[trigger] views(chans@).contains(n) <==> (start.has_channel(n)
                    && start.members_of(n).contains(agent@)) by {
                    if start.has_channel(n) && start.members_of(n).contains(agent@) && !before.has_channel(n) {
                        assert(tj0.contains(agent@));
                    }
                    if before.has_channel(n) {
                        assert(before.members_of(n).contains(agent@) == (start.members_of(n).contains(agent@) && !tj0.contains(agent@)));
                    }
                }
                assert(before.has_agent(agent@));
            }
            let external_id = self.remove_agent(agent.clone());
            proof {
                assert(opt_view(external_id) == start.external_id_of(agent@));
                let tj = views(doomed@.take(j as int));
                let tj1 = views(doomed@.take(j + 1));
                assert(tj1 =~= tj.push(agent@));
                assert forall|a: Seq<char>| #[trigger] self.has_agent(a) implies self.external_id_of(a) == start.external_id_of(a) by {
                    self.lemma_agents_key(a);
                    before.lemma_agents_key(a);
                }
                assert forall|a: Seq<char>| self.has_agent(a) == (start.has_agent(a) && !tj1.contains(a)) by {
                    self.lemma_agents_key(a);
                    before.lemma_agents_key(a);
                    assert(self.has_agent(a) == (before.has_agent(a) && a != agent@));
                    assert(before.has_agent(a) == (start.has_agent(a) && !tj.contains(a)));
                    assert(tj1[j as int] == agent@);
                    if tj1.contains(a) && !tj.contains(a) {
                        let z = choose|z: int| 0 <= z < tj1.len() && tj1[z] == a;
                        if z < tj.len() {
                            assert(tj[z] == a);
                        }
                    }
                    if tj.contains(a) {
                        let z = choose|z: int| 0 <= z < tj.len() && tj[z] == a;
                        assert(tj1[z] == a);
                    }
                }
                assert forall|n: Seq<char>| self.has_channel(n) == before.has_channel(n) by {}
                assert forall|n: Seq<char>, m: Seq<char>| self.has_channel(n) implies (#[trigger] self.members_of(n).contains(m)
                    <==> start.members_of(n).contains(m) && !tj1.contains(m)) by {
                    lemma_without_contains(before.members_of(n), agent@, m);
                    assert(before.members_of(n).contains(m) <==> start.members_of(n).contains(m) && !tj.contains(m));
                    assert(tj1[j as int] == agent@);
                    if tj1.contains(m) && !tj.contains(m) {
                        let z = choose|z: int| 0 <= z < tj1.len() && tj1[z] == m;
                        if z < tj.len() {
                            assert(tj[z] == m);
                        }
                    }
                    if tj.contains(m) {
                        let z = choose|z: int| 0 <= z < tj.len() && tj[z] == m;
                        assert(tj1[z] == m);
                    }
                }
                assert forall|n: Seq<char>, m: Seq<char>| start.has_channel(n) && !self.has_channel(n)
                    && #[trigger] start.members_of(n).contains(m) implies tj1.contains(m) by {
                    assert(tj.contains(m));
                    let z = choose|z: int| 0 <= z < tj.len() && tj[z] == m;
                    assert(tj1[z] == m);
                }
            }
            let mut c: usize = 0;
            while c < chans.len()
                invariant
                    self.wf(),
                    forall|x: Seq<char>| self.has_conn(x) == start.has_conn(x),
                    forall|a: Seq<char>| #[trigger] self.has_agent(a) == (start.has_agent(a) && !views(doomed@.take(j + 1)).contains(a)),
                    forall|a: Seq<char>| #[trigger] self.has_agent(a) ==> self.external_id_of(a) == start.external_id_of(a),
                    forall|n: Seq<char>| self.has_channel(n) ==> start.has_channel(n),
                    forall|n: Seq<char>| start.has_channel(n) && special_channel(n) ==> self.has_channel(n),
                    left_only(start, *self, views(doomed@.take(j + 1))),
                    c <= chans@.len(),
                    !tj0.contains(agent@),
                    tj0 == views(doomed@.take(j as int)),
                    views(doomed@).contains(agent@),
                    views(doomed@) == of_connection(start.agent_ids(), name@),
                    start.has_agent(agent@),
                    opt_view(external_id) == start.external_id_of(agent@),
                    views(chans@).no_duplicates(),
                    forall|n: Seq<char>| #[trigger] views(chans@).contains(n) <==> (start.has_channel(n)
                        && start.members_of(n).contains(agent@)),
                    forall|k: int| 0 <= k < out@.len() ==> departure_of(start, name@, #[trigger] out@[k])
                        && (tj0.contains(out@[k].agent_id@) || (out@[k].agent_id@ == agent@
                            && views(chans@.take(c as int)).contains(out@[k].channel@))),
                    forall|n: Seq<char>, a: Seq<char>| tj0.contains(a) && start.has_channel(n)
                        && #[trigger] start.members_of(n).contains(a) ==> departure_listed(out@, n, a),
                    forall|n: Seq<char>| #[trigger] views(chans@.take(c as int)).contains(n) ==> departure_listed(out@, n, agent@),
                    departures_distinct(out@),
                decreases chans@.len() - c,
            {
                let ch = chans[c].clone();
                if let Some(members) = self.channel_agents(ch.as_str()) {
                    if members.len() == 0 && !is_special_channel(ch.as_str()) {
                        let ghost b = *self;
                        self.remove_channel(ch.clone());
                        proof {
                            assert forall|n: Seq<char>| self.has_channel(n) implies b.has_channel(n) by {
                                self.lemma_channels_key(n);
                                b.lemma_channels_key(n);
                            }
                            assert forall|n: Seq<char>| start.has_channel(n) && special_channel(n) implies self.has_channel(n) by {
                                self.lemma_channels_key(n);
                                b.lemma_channels_key(n);
                            }
                            let gone = views(doomed@.take(j + 1));
                            assert forall|n: Seq<char>, m: Seq<char>| self.has_channel(n) implies (#[trigger] self.members_of(n).contains(m)
                                <==> start.members_of(n).contains(m) && !gone.contains(m)) by {
                                self.lemma_channels_key(n);
                                b.lemma_channels_key(n);
                            }
                            assert forall|n: Seq<char>| start.has_channel(n) && !self.has_channel(n) implies !special_channel(n) by {
                                self.lemma_channels_key(n);
                                b.lemma_channels_key(n);
                            }
                            assert forall|n: Seq<char>, m: Seq<char>| start.has_channel(n) && !self.has_channel(n)
                                && #[trigger] start.members_of(n).contains(m) implies gone.contains(m) by {
                                self.lemma_channels_key(n);
                                b.lemma_channels_key(n);
                                if n == ch@ {
                                    assert(!b.members_of(n).contains(m));
                                }
                            }
                            assert forall|a: Seq<char>| #[trigger] self.has_agent(a) == (start.has_agent(a) && !views(doomed@.take(j + 1)).contains(a)) by {
                                self.lemma_agents_key(a);
                                b.lemma_agents_key(a);
                            }
                            assert forall|a: Seq<char>| #[trigger] self.has_agent(a) implies self.external_id_of(a) == start.external_id_of(a) by {
                                self.lemma_agents_key(a);
                                b.lemma_agents_key(a);
                            }
                        }
                    }
                }
                let ghost prev = out@;
                let ghost tc = views(chans@.take(c as int));
                let ghost tc1 = views(chans@.take(c + 1));
                proof {
                    assert(views(chans@)[c as int] == ch@);
                    assert(tc1 =~= tc.push(ch@));
                    assert(views(chans@).contains(ch@));
                    assert(!tc.contains(ch@)) by {
                        if tc.contains(ch@) {
                            let z = choose|z: int| 0 <= z < tc.len() && tc[z] == ch@;
                            assert(views(chans@)[z] == views(chans@)[c as int]);
                        }
                    }
                    lemma_of_connection(start.agent_ids(), name@);
                }
                out.push(Departure { channel: ch, agent_id: agent.clone(), external_id: external_id.clone() });
                proof {
                    let d = out@[prev.len() as int];
                    assert(departure_of(start, name@, d));
                    assert forall|k: int| 0 <= k < out@.len() implies departure_of(start, name@, #[trigger] out@[k])
                        && (tj0.contains(out@[k].agent_id@) || (out@[k].agent_id@ == agent@ && tc1.contains(out@[k].channel@))) by {
                        if k < prev.len() {
                            assert(out@[k] == prev[k]);
                            if !tj0.contains(out@[k].agent_id@) {
                                let z = choose|z: int| 0 <= z < tc.len() && tc[z] == out@[k].channel@;
                                assert(tc1[z] == out@[k].channel@);
                            }
                        } else {
                            assert(tc1[c as int] == ch@);
                        }
                    }
                    assert forall|n: Seq<char>, a: Seq<char>| tj0.contains(a) && start.has_channel(n)
                        && #[trigger] start.members_of(n).contains(a) implies departure_listed(out@, n, a) by {
                        assert(departure_listed(prev, n, a));
                        let k = choose|k: int| 0 <= k < prev.len() && prev[k].channel@ == n && prev[k].agent_id@ == a;
                        assert(out@[k] == prev[k]);
                    }
                    assert forall|n: Seq<char>| #[trigger] tc1.contains(n) implies departure_listed(out@, n, agent@) by {
                        if n == ch@ {
                            assert(out@[prev.len() as int].channel@ == n);
                        } else {
                            let z = choose|z: int| 0 <= z < tc1.len() && tc1[z] == n;
                            assert(tc[z] == n);
                            assert(tc.contains(n));
                            assert(departure_listed(prev, n, agent@));
                            let k = choose|k: int| 0 <= k < prev.len() && prev[k].channel@ == n && prev[k].agent_id@ == agent@;
                            assert(out@[k] == prev[k]);
                        }
                    }
                    assert forall|p: int, q: int| 0 <= p < q < out@.len() implies
                        (out@[p].channel@, out@[p].agent_id@) != (out@[q].channel@, out@[q].agent_id@) by {
                        if q == prev.len() {
                            assert(out@[p] == prev[p]);
                            if out@[p].agent_id@ == agent@ {
                                assert(!tj0.contains(prev[p].agent_id@));
                                assert(tc.contains(prev[p].channel@));
                            }
                        } else {
                            assert(out@[p] == prev[p]);
                            assert(out@[q] == prev[q]);
                        }
                    }
                }
                c = c + 1;
            }
            proof {
                let tj1 = views(doomed@.take(j + 1));
                assert(tj1 =~= tj0.push(agent@));
                assert(chans@.take(c as int) =~= chans@);
                assert forall|k: int| 0 <= k < out@.len() implies departure_of(start, name@, #[trigger] out@[k])
                    && tj1.contains(out@[k].agent_id@) by {
                    if tj0.contains(out@[k].agent_id@) {
                        let z = choose|z: int| 0 <= z < tj0.len() && tj0[z] == out@[k].agent_id@;
                        assert(tj1[z] == out@[k].agent_id@);
                    } else {
                        assert(tj1[tj0.len() as int] == agent@);
                    }
                }
                assert forall|n: Seq<char>, a: Seq<char>| tj1.contains(a) && start.has_channel(n)
                    && #[trigger] start.members_of(n).contains(a) implies departure_listed(out@, n, a) by {
                    if a == agent@ {
                        assert(views(chans@).contains(n));
                    } else {
                        let z = choose|z: int| 0 <= z < tj1.len() && tj1[z] == a;
                        assert(tj0[z] == a);
                    }
                }
            }
            j = j + 1;
        }
        proof {
            assert(doomed@.take(j as int) =~= doomed@);
            assert(start.channel_names() == old(self).channel_names());
            assert(start.channels() == old(self).channels());
            assert forall|n: Seq<char>, m: Seq<char>| self.has_channel(n) implies (#[trigger] self.members_of(n).contains(m)
                <==> old(self).members_of(n).contains(m) && !of_connection(old(self).agent_ids(), name@).contains(m)) by {
                start.lemma_channels_key(n);
                old(self).lemma_channels_key(n);
                if old(self).members_of(n).contains(m) {
                    let k = choose|k: int| 0 <= k < old(self).members_of(n).len() && old(self).members_of(n)[k] == m;
                    old(self).lemma_members_are_agents(n, k);
                }
            }
            assert(start.agent_ids() == old(self).agent_ids());
            assert forall|k: int| 0 <= k < out@.len() implies departure_of(*old(self), name@, #[trigger] out@[k]) by {
                assert(departure_of(start, name@, out@[k]));
                start.lemma_agents_key(out@[k].agent_id@);
                old(self).lemma_agents_key(out@[k].agent_id@);
            }
            assert forall|n: Seq<char>, a: Seq<char>| old(self).has_channel(n) && #[trigger] old(self).members_of(n).contains(a)
                && agent_of_connection(a, name@) implies departure_listed(out@, n, a) by {
                let k = choose|k: int| 0 <= k < old(self).members_of(n).len() && old(self).members_of(n)[k] == a;
                old(self).lemma_members_are_agents(n, k);
                start.lemma_channels_key(n);
                old(self).lemma_channels_key(n);
                assert(start.members_of(n) == old(self).members_of(n));
                assert(start.agent_ids().contains(a));
                assert(views(doomed@).contains(a));
                assert(views(doomed@.take(j as int)) == views(doomed@));
            }
            assert forall|n: Seq<char>, m: Seq<char>| old(self).has_channel(n) && !self.has_channel(n)
                && #[trigger] old(self).members_of(n).contains(m) implies of_connection(old(self).agent_ids(), name@).contains(m) by {
                start.lemma_channels_key(n);
                old(self).lemma_channels_key(n);
                assert(start.members_of(n).contains(m));
                let k = choose|k: int| 0 <= k < old(self).members_of(n).len() && old(self).members_of(n)[k] == m;
                old(self).lemma_members_are_agents(n, k);
            }
            assert forall|n: Seq<char>| self.has_channel(n) implies old(self).has_channel(n) by {
                assert(start.has_channel(n));
            }
            assert forall|n: Seq<char>| old(self).has_channel(n) && special_channel(n) implies self.has_channel(n) by {
                assert(start.has_channel(n));
            }
        }
        out
    }

    /// The (external identity, agent id) pairs of the members of channel
    /// `channel_name` that have an identity, in the order of the members.
    pub fn presence_pairs(&self, channel_name: &str) -> (r: Vec<(String, String)>)
        requires
            self.wf(),
        ensures
            pairs_view(r@) == if self.has_channel(channel_name@) {
                identified(self.members_of(channel_name@), self.agents())
            } else {
                Seq::<(Seq<char>, Seq<char>)>::empty()
            },
    {
        let mut out: Vec<(String, String)> = Vec::new();
        match self.channel_agents(channel_name) {
            None => {
                assert(pairs_view(out@) =~= Seq::<(Seq<char>, Seq<char>)>::empty());
            },
            Some(members) => {
                let ghost ms = self.members_of(channel_name@);
                let mut i: usize = 0;
                while i < members.len()
                    invariant
                        self.wf(),
                        i <= members@.len(),
                        views(members@) == ms,
                        pairs_view(out@) == identified(ms.take(i as int), self.agents()),
                    decreases members@.len() - i,
                {
                    proof {
                        assert(ms.take(0) =~= Seq::<Seq<char>>::empty());
                        assert(ms.take(i + 1).drop_last() =~= ms.take(i as int));
                        assert(ms.take(i + 1).last() == members@[i as int]@);
                        self.lemma_agents_key(members@[i as int]@);
                    }
                    let ghost before = out@;
                    match self.find_agent(members[i].as_str()) {
                        Some(k) => {
                            proof {
                                self.lemma_agent_at(k as int);
                            }
                            match &self.agent_sender_map[k].external_id {
                                Some(e) => {
                                    out.push((e.clone(), members[i].clone()));
                                    proof {
                                        assert(pairs_view(out@) =~= pairs_view(before).push((e@, members@[i as int]@)));
                                    }
                                },
                                None => {},
                            }
                        },
                        None => {},
                    }
                    i = i + 1;
                }
                proof {
                    assert(ms.take(i as int) =~= ms);
                }
            },
        }
        out
    }
}

impl Default for ChannelControl {
    fn default() -> (r: Self)
        ensures
            r.wf(),
            r.channels() == Map::<Seq<char>, Seq<Seq<char>>>::empty(),
            r.agents() == Map::<Seq<char>, Option<Seq<char>>>::empty(),
            forall|c: Seq<char>| !r.has_conn(c),
    {
        Self::new()
    }
}

} // verus!
