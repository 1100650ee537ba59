//! Presence: who is in a channel, grouped by external identity, and the
//! diffs that announce arrivals and departures.

use vstd::prelude::*;
use itertools::Itertools;
use crate::channel::views;
use crate::json::{json_quoted, quote};
use crate::names::{to_topic, to_topic_of};

verus! {

/// The agents among `pairs` (identity, agent) whose identity is `k`, in order.
pub open spec fn group_of(pairs: Seq<(Seq<char>, Seq<char>)>, k: Seq<char>) -> Seq<Seq<char>>
    decreases pairs.len(),
{
    if pairs.len() == 0 {
        Seq::empty()
    } else if pairs.last().0 == k {
        group_of(pairs.drop_last(), k).push(pairs.last().1)
    } else {
        group_of(pairs.drop_last(), k)
    }
}

/// The identities of a grouping.
pub open spec fn group_keys(groups: Seq<(Seq<char>, Seq<Seq<char>>)>) -> Seq<Seq<char>> {
    groups.map_values(|g: (Seq<char>, Seq<Seq<char>>)| g.0)
}

/// The identities of a list of (identity, agent) pairs.
pub open spec fn pair_keys(pairs: Seq<(Seq<char>, Seq<char>)>) -> Seq<Seq<char>> {
    pairs.map_values(|p: (Seq<char>, Seq<char>)| p.0)
}

/// `groups` holds each identity of `pairs` once, each with its agents in the
/// order of `pairs`; the order of the groups is left open.
pub open spec fn is_grouping(groups: Seq<(Seq<char>, Seq<Seq<char>>)>, pairs: Seq<(Seq<char>, Seq<char>)>) -> bool {
    &&& group_keys(groups).no_duplicates()
    &&& group_keys(groups).to_set() == pair_keys(pairs).to_set()
    &&& forall|i: int| 0 <= i < groups.len() ==> (#[trigger] groups[i]).1 == group_of(pairs, groups[i].0)
}

/// The views of a grouping.
pub open spec fn group_views(v: Seq<(String, Vec<String>)>) -> Seq<(Seq<char>, Seq<Seq<char>>)> {
    v.map_values(|g: (String, Vec<String>)| (g.0@, views(g.1@)))
}

/// The views of a list of string pairs.
pub open spec fn pairs_view(v: Seq<(String, String)>) -> Seq<(Seq<char>, Seq<char>)> {
    v.map_values(|p: (String, String)| (p.0@, p.1@))
}

/// Relies on itertools' `into_group_map_by`: a `HashMap` from each identity
/// to its agents, pushed in the order of the input; the map is then walked
/// in whatever order it has.
#[verifier::external_body]
fn group_by_identity(pairs: Vec<(String, String)>) -> (r: Vec<(String, Vec<String>)>)
    ensures
        is_grouping(group_views(r@), pairs_view(pairs@)),
{
    pairs.into_iter().into_group_map_by(|p| p.0.clone()).into_iter().map(
        |(k, v)| (k, v.into_iter().map(|p| p.1).collect()),
    ).collect()
}

/// Parts joined by commas.
pub open spec fn join_comma(parts: Seq<Seq<char>>) -> Seq<char>
    decreases parts.len(),
{
    if parts.len() == 0 {
        Seq::empty()
    } else if parts.len() == 1 {
        parts[0]
    } else {
        join_comma(parts.drop_last()) + ","@ + parts.last()
    }
}

/// `{"phx_ref":<agent>}`.
pub open spec fn meta_text(agent: Seq<char>) -> Seq<char> {
    "{\"phx_ref\":"@ + json_quoted(agent) + "}"@
}

/// `<identity>:{"metas":[<meta>,...]}`.
pub open spec fn presence_entry_text(g: (Seq<char>, Seq<Seq<char>>)) -> Seq<char> {
    json_quoted(g.0) + ":{\"metas\":["@ + join_comma(g.1.map_values(|a: Seq<char>| meta_text(a))) + "]}"@
}

/// The presence object of a grouping: `{<entry>,...}`.
pub open spec fn presence_text(groups: Seq<(Seq<char>, Seq<Seq<char>>)>) -> Seq<char> {
    "{"@ + join_comma(groups.map_values(|g: (Seq<char>, Seq<Seq<char>>)| presence_entry_text(g))) + "}"@
}

fn metas(agents: &Vec<String>) -> (r: String)
    ensures
        r@ == join_comma(views(agents@).map_values(|a: Seq<char>| meta_text(a))),
{
    let ghost parts = views(agents@).map_values(|a: Seq<char>| meta_text(a));
    let mut out = String::new();
    let mut i: usize = 0;
    while i < agents.len()
        invariant
            i <= agents@.len(),
            parts == views(agents@).map_values(|a: Seq<char>| meta_text(a)),
            out@ == join_comma(parts.take(i as int)),
        decreases agents@.len() - i,
    {
        let part = "{\"phx_ref\":".to_owned().concat(quote(agents[i].as_str()).as_str()).concat("}");
        proof {
            assert(part@ == parts[i as int]);
            assert(parts.take(i + 1).drop_last() =~= parts.take(i as int));
        }
        if i == 0 {
            proof {
                assert(parts.take(1) =~= seq![parts[0]]);
            }
            out = part;
        } else {
            out = out.concat(",").concat(part.as_str());
        }
        i = i + 1;
    }
    proof {
        assert(parts.take(i as int) =~= parts);
    }
    out
}

/// The presence object of a grouping, as JSON text.
pub fn presence_object(groups: &Vec<(String, Vec<String>)>) -> (r: String)
    ensures
        r@ == presence_text(group_views(groups@)),
{
    let ghost parts = group_views(groups@).map_values(|g: (Seq<char>, Seq<Seq<char>>)| presence_entry_text(g));
    let mut out = String::new();
    let mut i: usize = 0;
    while i < groups.len()
        invariant
            i <= groups@.len(),
            parts == group_views(groups@).map_values(|g: (Seq<char>, Seq<Seq<char>>)| presence_entry_text(g)),
            out@ == join_comma(parts.take(i as int)),
        decreases groups@.len() - i,
    {
        let part = quote(groups[i].0.as_str()).concat(":{\"metas\":[").concat(metas(&groups[i].1).as_str()).concat("]}");
        proof {
            assert(part@ == parts[i as int]);
            assert(parts.take(i + 1).drop_last() =~= parts.take(i as int));
        }
        if i == 0 {
            proof {
                assert(parts.take(1) =~= seq![parts[0]]);
            }
            out = part;
        } else {
            out = out.concat(",").concat(part.as_str());
        }
        i = i + 1;
    }
    proof {
        assert(parts.take(i as int) =~= parts);
    }
    "{".to_owned().concat(out.as_str()).concat("}")
}

/// The presence object of (identity, agent) pairs: each identity with the
/// metas of its agents, in an order that the grouping leaves open.
pub fn presence_of(pairs: Vec<(String, String)>) -> (r: String)
    ensures
        exists|g: Seq<(Seq<char>, Seq<Seq<char>>)>| is_grouping(g, pairs_view(pairs@)) && r@ == presence_text(g),
{
    let groups = group_by_identity(pairs);
    presence_object(&groups)
}

/// Whether a presence diff announces arrivals or departures.
#[derive(Debug, Clone, Copy, PartialEq, Eq, Structural)]
pub enum PresenceAction {
    Join,
    Leave,
}

/// A message to publish on a Redis topic.
pub struct Publication {
    pub topic: String,
    pub message: String,
}

/// The text of a presence diff whose arrivals (or departures) are `items`
/// and whose other side is empty.
pub open spec fn diff_text(action: PresenceAction, items: Seq<char>) -> Seq<char> {
    match action {
        PresenceAction::Join => "{\"joins\":"@ + items + ",\"leaves\":{}}"@,
        PresenceAction::Leave => "{\"joins\":{},\"leaves\":"@ + items + "}"@,
    }
}

/// The presence diff of many agents at once: published on
/// `to:<channel>:presence_diff`, with `items` (a presence object) as its
/// joins or its leaves.
pub fn presence_diff_many(channel_name: &str, action: PresenceAction, items: &str) -> (r: Publication)
    ensures
        r.topic@ == to_topic_of(channel_name@, "presence_diff"@),
        r.message@ == diff_text(action, items@),
{
    let message = match action {
        PresenceAction::Join => "{\"joins\":".to_owned().concat(items).concat(",\"leaves\":{}}"),
        PresenceAction::Leave => "{\"joins\":{},\"leaves\":".to_owned().concat(items).concat("}"),
    };
    Publication { topic: to_topic(channel_name, "presence_diff"), message }
}

/// The presence diff of one agent: `{external_id: {metas: [{phx_ref: agent_id}]}}`
/// as its joins or its leaves, published on `to:<channel>:presence_diff`.
pub fn presence_diff(channel_name: &str, agent_id: &str, external_id: &str, action: PresenceAction) -> (r: Publication)
    ensures
        r.topic@ == to_topic_of(channel_name@, "presence_diff"@),
        r.message@ == diff_text(action, presence_text(seq![(external_id@, seq![agent_id@])])),
{
    let mut agents: Vec<String> = Vec::new();
    agents.push(agent_id.to_owned());
    assert(views(agents@) =~= seq![agent_id@]);
    let mut groups: Vec<(String, Vec<String>)> = Vec::new();
    groups.push((external_id.to_owned(), agents));
    assert(group_views(groups@) =~= seq![(external_id@, seq![agent_id@])]);
    let items = presence_object(&groups);
    presence_diff_many(channel_name, action, items.as_str())
}

/// An agent paired with identity `e` is in the group of `e`.
pub proof fn lemma_group_holds(pairs: Seq<(Seq<char>, Seq<char>)>, e: Seq<char>, a: Seq<char>)
    requires
        pairs.contains((e, a)),
    ensures
        group_of(pairs, e).contains(a),
    decreases pairs.len(),
{
    let t = pairs.drop_last();
    if pairs.last() == (e, a) {
        let g = group_of(t, e).push(a);
        assert(g[g.len() - 1] == a);
    } else {
        let k = choose|k: int| 0 <= k < pairs.len() && pairs[k] == (e, a);
        assert(t[k] == (e, a));
        lemma_group_holds(t, e, a);
        let z = choose|z: int| 0 <= z < group_of(t, e).len() && group_of(t, e)[z] == a;
        if pairs.last().0 == e {
            assert(group_of(pairs, e)[z] == a);
        }
    }
}

/// A grouping of pairs that pair `a` with `e` has a group `e` that holds `a`.
pub proof fn lemma_grouping_has(g: Seq<(Seq<char>, Seq<Seq<char>>)>, pairs: Seq<(Seq<char>, Seq<char>)>, e: Seq<char>, a: Seq<char>)
    requires
        is_grouping(g, pairs),
        pairs.contains((e, a)),
    ensures
        exists|i: int| 0 <= i < g.len() && (#[trigger] g[i]).0 == e && g[i].1.contains(a),
{
    let k = choose|k: int| 0 <= k < pairs.len() && pairs[k] == (e, a);
    assert(pair_keys(pairs)[k] == e);
    assert(pair_keys(pairs).to_set().contains(e));
    assert(group_keys(g).to_set().contains(e));
    let i = choose|i: int| 0 <= i < group_keys(g).len() && group_keys(g)[i] == e;
    assert(g[i].0 == e);
    lemma_group_holds(pairs, e, a);
    assert(g[i].1 == group_of(pairs, e));
}

} // verus!
