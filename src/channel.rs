//! Channels: named broadcast buses with an ordered list of member agents.

use vstd::prelude::*;
use tokio::sync::broadcast::error::SendError;
use tokio::sync::broadcast::{Receiver, Sender};
use tokio::task::JoinHandle;
use crate::message::ChannelMessage;

verus! {

/// The capacity of a mailbox when none is given.
pub const DEFAULT_CAPACITY: usize = 100;

/// A capacity that a tokio broadcast mailbox accepts (`None` stands for the default).
pub open spec fn valid_capacity(capacity: Option<usize>) -> bool {
    match capacity {
        Some(c) => 0 < c <= usize::MAX / 2,
        None => true,
    }
}

/// The views of a list of strings.
pub open spec fn views(v: Seq<String>) -> Seq<Seq<char>> {
    v.map_values(|s: String| s@)
}

/// What is left of a list without duplicates once `x` is taken out.
pub open spec fn without(s: Seq<Seq<char>>, x: Seq<char>) -> Seq<Seq<char>>
    decreases s.len(),
{
    if s.len() == 0 {
        s
    } else if s.last() == x {
        without(s.drop_last(), x)
    } else {
        without(s.drop_last(), x).push(s.last())
    }
}

/// What is left once `x` is taken out is a part of what was there, without `x`.
pub proof fn lemma_without_within(s: Seq<Seq<char>>, x: Seq<char>)
    ensures
        forall|y: Seq<char>| #[trigger] without(s, x).contains(y) ==> s.contains(y) && y != x,
        without(s, x).len() <= s.len(),
    decreases s.len(),
{
    if s.len() > 0 {
        let t = s.drop_last();
        lemma_without_within(t, x);
        assert(s == t.push(s.last()));
        assert forall|y: Seq<char>| #[trigger] without(s, x).contains(y) implies s.contains(y) && y != x by {
            if s.last() != x && y == s.last() {
                assert(s[s.len() - 1] == y);
            } else {
                if s.last() != x {
                    let k = choose|k: int| 0 <= k < without(s, x).len() && without(s, x)[k] == y;
                    assert(without(s, x) == without(t, x).push(s.last()));
                    assert(without(t, x)[k] == y);
                }
                assert(without(t, x).contains(y));
                let k = choose|k: int| 0 <= k < t.len() && t[k] == y;
                assert(s[k] == y);
            }
        }
    }
}

/// An element stays when another is taken out.
pub proof fn lemma_without_contains(s: Seq<Seq<char>>, x: Seq<char>, y: Seq<char>)
    ensures
        without(s, x).contains(y) <==> (s.contains(y) && y != x),
    decreases s.len(),
{
    lemma_without_within(s, x);
    if s.len() > 0 && s.contains(y) && y != x {
        let t = s.drop_last();
        assert(s == t.push(s.last()));
        if s.last() == y {
            assert(without(s, x) == without(t, x).push(y));
            assert(without(s, x)[without(t, x).len() as int] == y);
        } else {
            let k = choose|k: int| 0 <= k < s.len() && s[k] == y;
            assert(t[k] == y);
            lemma_without_contains(t, x, y);
            let z = choose|z: int| 0 <= z < without(t, x).len() && without(t, x)[z] == y;
            if s.last() != x {
                assert(without(s, x)[z] == y);
            }
        }
    }
}

/// The members once `a` has joined: `a` is appended unless it is one already.
pub open spec fn joined(members: Seq<Seq<char>>, a: Seq<char>) -> Seq<Seq<char>> {
    if members.contains(a) {
        members
    } else {
        members.push(a)
    }
}

/// Who is a member once `a` has joined.
pub proof fn lemma_joined_contains(members: Seq<Seq<char>>, a: Seq<char>, x: Seq<char>)
    ensures
        joined(members, a).contains(x) <==> (members.contains(x) || x == a),
{
    if !members.contains(a) {
        let j = members.push(a);
        assert(j[members.len() as int] == a);
        if members.contains(x) {
            let k = choose|k: int| 0 <= k < members.len() && members[k] == x;
            assert(j[k] == x);
        }
        if j.contains(x) && x != a {
            let k = choose|k: int| 0 <= k < j.len() && j[k] == x;
            assert(members[k] == x);
        }
    }
}

/// A join or a leave of one agent.
pub enum MemberOp {
    Join(Seq<char>),
    Leave(Seq<char>),
}

/// The agent an operation is about.
pub open spec fn op_agent(op: MemberOp) -> Seq<char> {
    match op {
        MemberOp::Join(a) => a,
        MemberOp::Leave(a) => a,
    }
}

/// The members after `ops`, one after the other.
pub open spec fn apply_ops(members: Seq<Seq<char>>, ops: Seq<MemberOp>) -> Seq<Seq<char>>
    decreases ops.len(),
{
    if ops.len() == 0 {
        members
    } else {
        let m = apply_ops(members, ops.drop_last());
        match ops.last() {
            MemberOp::Join(a) => joined(m, a),
            MemberOp::Leave(a) => without(m, a),
        }
    }
}

/// Every join in `ops` is matched by a later leave of the same agent.
pub open spec fn balanced(ops: Seq<MemberOp>) -> bool {
    forall|i: int| 0 <= i < ops.len() && (#[trigger] ops[i]) is Join ==>
        exists|j: int| i < j < ops.len() && ops[j] == MemberOp::Leave(op_agent(ops[i]))
}

/// Starting from no members, an agent is a member after `ops` only through a
/// join that no later operation on it follows.
proof fn lemma_member_through_last_join(ops: Seq<MemberOp>, a: Seq<char>)
    requires
        apply_ops(Seq::empty(), ops).contains(a),
    ensures
        exists|i: int| 0 <= i < ops.len() && ops[i] == MemberOp::Join(a)
            && forall|j: int| i < j < ops.len() ==> op_agent(#[trigger] ops[j]) != a,
    decreases ops.len(),
{
    if ops.len() == 0 {
        assert(Seq::<Seq<char>>::empty().len() == 0);
    } else {
        let t = ops.drop_last();
        let m = apply_ops(Seq::empty(), t);
        let last = ops.len() - 1;
        match ops.last() {
            MemberOp::Join(b) => {
                if a == b {
                    assert(ops[last] == MemberOp::Join(a));
                } else {
                    assert(m.contains(a)) by {
                        if !m.contains(a) {
                            let k = choose|k: int| 0 <= k < joined(m, b).len() && joined(m, b)[k] == a;
                            if k < m.len() {
                                assert(m[k] == a);
                            }
                        }
                    }
                    lemma_member_through_last_join(t, a);
                    let i = choose|i: int| 0 <= i < t.len() && t[i] == MemberOp::Join(a)
                        && forall|j: int| i < j < t.len() ==> op_agent(#[trigger] t[j]) != a;
                    assert(ops[i] == MemberOp::Join(a));
                    assert forall|j: int| i < j < ops.len() implies op_agent(#[trigger] ops[j]) != a by {
                        if j < last {
                            assert(ops[j] == t[j]);
                        }
                    }
                }
            },
            MemberOp::Leave(b) => {
                lemma_without_within(m, b);
                lemma_member_through_last_join(t, a);
                let i = choose|i: int| 0 <= i < t.len() && t[i] == MemberOp::Join(a)
                    && forall|j: int| i < j < t.len() ==> op_agent(#[trigger] t[j]) != a;
                assert(ops[i] == MemberOp::Join(a));
                assert forall|j: int| i < j < ops.len() implies op_agent(#[trigger] ops[j]) != a by {
                    if j < last {
                        assert(ops[j] == t[j]);
                    }
                }
            },
        }
    }
}

/// Joins and leaves that come in matched pairs leave a channel that had no
/// members with none.
pub proof fn lemma_membership_balance(ops: Seq<MemberOp>)
    requires
        balanced(ops),
    ensures
        apply_ops(Seq::empty(), ops).len() == 0,
{
    let m = apply_ops(Seq::empty(), ops);
    if m.len() > 0 {
        let a = m[0];
        assert(m.contains(a));
        lemma_member_through_last_join(ops, a);
        let i = choose|i: int| 0 <= i < ops.len() && ops[i] == MemberOp::Join(a)
            && forall|j: int| i < j < ops.len() ==> op_agent(#[trigger] ops[j]) != a;
        assert(ops[i] is Join);
        let j = choose|j: int| i < j < ops.len() && ops[j] == MemberOp::Leave(op_agent(ops[i]));
        assert(op_agent(ops[j]) == a);
    }
}

/// A named broadcast bus: what is sent on it reaches every subscriber.
pub struct Channel {
    /// channel name
    pub name: String,
    sender: Sender<ChannelMessage>,
    agents: Vec<String>,
    listen_task: Option<JoinHandle<()>>,
}

/// Looks for `x` in `v`.
pub fn position(v: &Vec<String>, x: &str) -> (r: Option<usize>)
    ensures
        match r {
            Some(i) => i < v@.len() && v@[i as int]@ == x@,
            None => !views(v@).contains(x@),
        },
{
    let key = x.to_owned();
    let mut i: usize = 0;
    while i < v.len()
        invariant
            i <= v@.len(),
            key@ == x@,
            forall|k: int| 0 <= k < i ==> v@[k]@ != x@,
        decreases v@.len() - i,
    {
        if v[i] == key {
            return Some(i);
        }
        i = i + 1;
    }
    proof {
        if views(v@).contains(x@) {
            let k = choose|k: int| 0 <= k < views(v@).len() && views(v@)[k] == x@;
            assert(v@[k]@ == x@);
        }
    }
    None
}

/// Taking out of a list without duplicates the element at `i` leaves the
/// list without that element.
pub proof fn lemma_remove_is_without(s: Seq<Seq<char>>, i: int)
    requires
        s.no_duplicates(),
        0 <= i < s.len(),
    ensures
        s.remove(i) == without(s, s[i]),
        s.remove(i).no_duplicates(),
    decreases s.len(),
{
    let x = s[i];
    if i == s.len() - 1 {
        assert(s == s.drop_last().push(x));
        assert(!s.drop_last().contains(x)) by {
            if s.drop_last().contains(x) {
                let k = choose|k: int| 0 <= k < s.drop_last().len() && s.drop_last()[k] == x;
                assert(s[k] == s[i]);
            }
        }
        lemma_without_absent(s.drop_last(), x);
        assert(s.remove(i) =~= s.drop_last());
    } else {
        let t = s.drop_last();
        let l = s.last();
        assert(s == t.push(l));
        assert(t.no_duplicates());
        lemma_remove_is_without(t, i);
        assert(l != x);
        assert(s.remove(i) =~= t.remove(i).push(l));
    }
    assert(s.remove(i).no_duplicates()) by {
        assert forall|a: int, b: int| 0 <= a < b < s.remove(i).len() implies s.remove(i)[a] != s.remove(i)[b] by {
            let a0 = if a < i { a } else { a + 1 };
            let b0 = if b < i { b } else { b + 1 };
            assert(s.remove(i)[a] == s[a0]);
            assert(s.remove(i)[b] == s[b0]);
        }
    }
}

/// A list that does not hold `x` stays as it is when `x` is taken out.
pub proof fn lemma_without_absent(s: Seq<Seq<char>>, x: Seq<char>)
    requires
        !s.contains(x),
    ensures
        without(s, x) == s,
    decreases s.len(),
{
    if s.len() > 0 {
        let t = s.drop_last();
        assert(s == t.push(s.last()));
        assert(!t.contains(x)) by {
            if t.contains(x) {
                let k = choose|k: int| 0 <= k < t.len() && t[k] == x;
                assert(s[k] == x);
            }
        }
        lemma_without_absent(t, x);
        assert(s.last() != x);
    } else {
        assert(without(s, x) =~= s);
    }
}

impl Channel {
    /// The channel's name.
    pub closed spec fn topic(&self) -> Seq<char> {
        self.name@
    }

    /// The member agents, in the order in which they joined.
    pub closed spec fn members(&self) -> Seq<Seq<char>> {
        views(self.agents@)
    }

    /// Whether a Redis listening task is recorded for the channel.
    pub closed spec fn is_listening(&self) -> bool {
        self.listen_task is Some
    }

    /// An agent is a member at most once.
    pub closed spec fn wf(&self) -> bool {
        self.members().no_duplicates()
    }

    /// A well-formed channel has each member once.
    pub proof fn lemma_members_unique(&self)
        requires
            self.wf(),
        ensures
            self.members().no_duplicates(),
    {
    }

    /// A channel with no members, whose mailbox buffers `capacity` messages
    /// (100 by default).
    pub fn new(name: String, capacity: Option<usize>) -> (r: Channel)
        requires
            valid_capacity(capacity),
        ensures
            r.topic() == name@,
            r.members() == Seq::<Seq<char>>::empty(),
            !r.is_listening(),
            r.wf(),
    {
        let cap = match capacity {
            Some(c) => c,
            None => DEFAULT_CAPACITY,
        };
        let (tx, _rx) = tokio::sync::broadcast::channel(cap);
        let r = Channel { name, sender: tx, agents: Vec::new(), listen_task: None };
        assert(r.members() =~= Seq::<Seq<char>>::empty());
        r
    }

    /// Adds `agent_id` to the members unless it is one already; returns a
    /// sender on the channel's mailbox.
    pub fn join(&mut self, agent_id: String) -> (r: Sender<ChannelMessage>)
        requires
            old(self).wf(),
        ensures
            final(self).wf(),
            final(self).topic() == old(self).topic(),
            final(self).is_listening() == old(self).is_listening(),
            final(self).members() == joined(old(self).members(), agent_id@),
    {
        match position(&self.agents, agent_id.as_str()) {
            Some(i) => {
                assert(self.members()[i as int] == agent_id@);
            },
            None => {
                let ghost before = self.members();
                self.agents.push(agent_id);
                assert(self.members() =~= before.push(agent_id@));
                assert(self.members().no_duplicates()) by {
                    assert forall|a: int, b: int| 0 <= a < b < self.members().len() implies self.members()[a] != self.members()[b] by {
                        if b == before.len() {
                            assert(before[a] == self.members()[a]);
                        }
                    }
                }
            },
        }
        self.sender.clone()
    }

    /// Takes `agent` out of the members; the others keep their order.
    pub fn leave(&mut self, agent: String)
        requires
            old(self).wf(),
        ensures
            final(self).wf(),
            final(self).topic() == old(self).topic(),
            final(self).is_listening() == old(self).is_listening(),
            final(self).members() == without(old(self).members(), agent@),
    {
        match position(&self.agents, agent.as_str()) {
            Some(i) => {
                let ghost before = self.members();
                self.agents.remove(i);
                proof {
                    lemma_remove_is_without(before, i as int);
                    assert(self.members() =~= before.remove(i as int));
                }
            },
            None => {
                proof {
                    lemma_without_absent(self.members(), agent@);
                }
            },
        }
    }

    /// Broadcasts `data` to every subscriber of the channel; returns how many
    /// were subscribed, and fails when none is.
    pub fn send(&self, data: ChannelMessage) -> (r: Result<usize, SendError<ChannelMessage>>)
        ensures
            r is Ok ==> r->Ok_0 > 0,
    {
        self.sender.send(data)
    }

    /// Has the channel no member?
    pub fn empty(&self) -> (r: bool)
        ensures
            r == (self.members().len() == 0),
    {
        self.agents.len() == 0
    }

    /// The member agents, in the order in which they joined.
    pub fn agents(&self) -> (r: &Vec<String>)
        ensures
            views(r@) == self.members(),
    {
        &self.agents
    }

    /// Is `n` the channel's name?
    pub fn is_named(&self, n: &str) -> (r: bool)
        ensures
            r == (self.topic() == n@),
    {
        self.name == n.to_owned()
    }

    /// The channel's name.
    pub fn name(&self) -> (r: String)
        ensures
            r@ == self.topic(),
    {
        self.name.clone()
    }

    /// Has the channel a Redis listening task?
    pub fn is_listening_now(&self) -> (r: bool)
        ensures
            r == self.is_listening(),
    {
        self.listen_task.is_some()
    }

    /// Records the Redis listening task of the channel.
    pub fn set_listen_task(&mut self, task: JoinHandle<()>)
        ensures
            final(self).is_listening(),
            final(self).topic() == old(self).topic(),
            final(self).members() == old(self).members(),
            final(self).wf() == old(self).wf(),
    {
        self.listen_task = Some(task);
    }

    /// Aborts the Redis listening task of the channel, if there is one.
    pub fn stop_listening(&mut self)
        ensures
            !final(self).is_listening(),
            final(self).topic() == old(self).topic(),
            final(self).members() == old(self).members(),
            final(self).wf() == old(self).wf(),
    {
        if let Some(t) = &self.listen_task {
            t.abort();
        }
        self.listen_task = None;
    }

    /// A receiver of what is broadcast on the channel from now on.
    pub fn subscribe(&self) -> Receiver<ChannelMessage> {
        self.sender.subscribe()
    }
}

} // verus!
