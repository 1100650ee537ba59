//! Names that the protocol builds out of other names: agent ids and the
//! Redis topics that mirror a channel.

use vstd::prelude::*;

verus! {

/// `phoenix`, `admin` and `system` exist from boot on and are never removed.
pub open spec fn special_channel(name: Seq<char>) -> bool {
    name == "phoenix"@ || name == "admin"@ || name == "system"@
}

/// Is `ch` one of the channels that are created at boot and never removed?
pub fn is_special_channel(ch: &str) -> (r: bool)
    ensures
        r == special_channel(ch@),
{
    let s = ch.to_owned();
    s == "phoenix".to_owned() || s == "admin".to_owned() || s == "system".to_owned()
}

/// `p` is a prefix of `s`.
pub open spec fn is_prefix(p: Seq<char>, s: Seq<char>) -> bool {
    p.len() <= s.len() && s.subrange(0, p.len() as int) == p
}

/// The id of the agent that one join of `channel` on connection `conn` makes:
/// `<conn>:<channel>:<join_ref>`.
pub open spec fn agent_id_of(conn: Seq<char>, channel: Seq<char>, join_ref: Seq<char>) -> Seq<char> {
    conn + ":"@ + channel + ":"@ + join_ref
}

/// An agent belongs to a connection when its id starts with `<conn>:`.
pub open spec fn agent_of_connection(agent: Seq<char>, conn: Seq<char>) -> bool {
    is_prefix(conn + ":"@, agent)
}

/// The Redis topic on which an inbound frame is mirrored: `from:<topic>:<event>`.
pub open spec fn from_topic_of(topic: Seq<char>, event: Seq<char>) -> Seq<char> {
    "from:"@ + topic + ":"@ + event
}

/// What every Redis topic that feeds `channel` starts with: `to:<channel>:`.
pub open spec fn to_prefix_of(channel: Seq<char>) -> Seq<char> {
    "to:"@ + channel + ":"@
}

/// The Redis topic whose messages become `event` on `channel`: `to:<channel>:<event>`.
pub open spec fn to_topic_of(channel: Seq<char>, event: Seq<char>) -> Seq<char> {
    to_prefix_of(channel) + event
}

/// A topic that feeds a channel is never one that mirrors a frame.
pub proof fn lemma_to_is_not_from(c: Seq<char>, e: Seq<char>, t: Seq<char>, v: Seq<char>)
    ensures
        is_prefix("to:"@, to_topic_of(c, e)),
        to_topic_of(c, e) != from_topic_of(t, v),
{
    reveal_strlit("to:");
    reveal_strlit("from:");
    assert(to_topic_of(c, e)[0] == 't');
    assert(from_topic_of(t, v)[0] == 'f');
    assert(to_topic_of(c, e).subrange(0, 3) =~= "to:"@);
}

/// A topic that starts with `to:` is not one that mirrors a frame.
pub proof fn lemma_to_prefix_is_not_from(s: Seq<char>, t: Seq<char>, v: Seq<char>)
    requires
        is_prefix("to:"@, s),
    ensures
        s != from_topic_of(t, v),
{
    reveal_strlit("to:");
    reveal_strlit("from:");
    assert(s[0] == s.subrange(0, 3)[0]);
    assert(from_topic_of(t, v)[0] == 'f');
}

/// Does `s` start with `p`?
pub fn starts_with(s: &str, p: &str) -> (r: bool)
    ensures
        r == is_prefix(p@, s@),
{
    let n = p.unicode_len();
    let m = s.unicode_len();
    if n > m {
        return false;
    }
    let mut i: usize = 0;
    while i < n
        invariant
            n == p@.len(),
            m == s@.len(),
            n <= m,
            i <= n,
            forall|k: int| 0 <= k < i ==> s@[k] == p@[k],
        decreases n - i,
    {
        if s.get_char(i) != p.get_char(i) {
            assert(s@.subrange(0, n as int)[i as int] != p@[i as int]);
            return false;
        }
        i = i + 1;
    }
    assert(s@.subrange(0, n as int) =~= p@);
    true
}

/// The agent id `<conn_id>:<channel>:<join_ref>`.
pub fn agent_id(conn_id: &str, channel: &str, join_ref: &str) -> (r: String)
    ensures
        r@ == agent_id_of(conn_id@, channel@, join_ref@),
{
    conn_id.to_owned().concat(":").concat(channel).concat(":").concat(join_ref)
}

/// Is `agent` one of the agents of connection `conn_id`?
pub fn is_agent_of_connection(agent: &str, conn_id: &str) -> (r: bool)
    ensures
        r == agent_of_connection(agent@, conn_id@),
{
    let p = conn_id.to_owned().concat(":");
    starts_with(agent, p.as_str())
}

/// `from:<topic>:<event>`.
pub fn from_topic(topic: &str, event: &str) -> (r: String)
    ensures
        r@ == from_topic_of(topic@, event@),
{
    "from:".to_owned().concat(topic).concat(":").concat(event)
}

/// `to:<channel>:<event>`.
pub fn to_topic(channel: &str, event: &str) -> (r: String)
    ensures
        r@ == to_topic_of(channel@, event@),
{
    "to:".to_owned().concat(channel).concat(":").concat(event)
}

/// The event that a message on Redis topic `topic` carries into `channel`:
/// what follows `to:<channel>:`, or `None` where the topic does not feed the
/// channel.
pub fn event_of_topic(channel: &str, topic: &str) -> (r: Option<String>)
    ensures
        match r {
            Some(e) => topic@ == to_topic_of(channel@, e@),
            None => !is_prefix(to_prefix_of(channel@), topic@),
        },
{
    let p = "to:".to_owned().concat(channel).concat(":");
    if starts_with(topic, p.as_str()) {
        let n = p.as_str().unicode_len();
        let m = topic.unicode_len();
        let e = topic.substring_char(n, m);
        assert(topic@ =~= p@ + e@);
        Some(e.to_owned())
    } else {
        None
    }
}

} // verus!
