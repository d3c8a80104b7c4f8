//! The rules of the election, stated on ghost values: what a node answers,
//! how it counts votes, what one tick and one round of ticks lead to, and what
//! follows from these rules whatever the nodes and mailboxes hold.

use vstd::prelude::*;

use crate::raft_buddy::Role;
use crate::raft_id::RaftId;
use crate::raft_log::Entry;
use crate::raft_message::{RaftMessage, RaftMessageBody};
use crate::raft_temporal::RaftTimer;
use crate::raft_topology::{
    delivered, emptied, has_member, inbox_of, lemma_clear_empties, lemma_emptying_keeps_members,
    lemma_mail_keeps_members, ordered, same_members, slot_of, solicited, Member,
};

verus! {

/// A node as contracts see it.
pub ghost struct Buddy {
    pub role: Role,
    pub id: RaftId,
    pub timer: RaftTimer,
    pub current_term: usize,
    pub log: Seq<Entry>,
    pub votes: Map<usize, RaftMessage>,
}

/// The number of granted votes that makes a leader among `members` nodes:
/// more than half of them.
pub open spec fn quorum(members: nat) -> nat {
    members / 2 + 1
}

/// The voters whose recorded vote is a granted one.
pub open spec fn granting_voters(votes: Map<usize, RaftMessage>) -> Set<usize> {
    Set::new(|voter: usize| votes.contains_key(voter) && votes[voter] is VoteForCandidate)
}

/// The number of voters whose recorded vote is a granted one.
pub open spec fn granted(votes: Map<usize, RaftMessage>) -> nat {
    granting_voters(votes).len()
}

/// Whether a node with `term` and a log of `log_length` entries is behind the
/// sender of `request`: terms decide, log lengths break the tie.
pub open spec fn is_behind(term: usize, log_length: usize, request: RaftMessageBody) -> bool {
    term < request.current_term || (term == request.current_term && log_length
        < request.log_length)
}

impl Buddy {
    /// What the node says of itself in every message it sends.
    pub open spec fn body(self) -> RaftMessageBody {
        RaftMessageBody {
            id: self.id,
            current_term: self.current_term,
            log_length: self.log.len() as usize,
        }
    }

    /// The answer to a request for a vote. A node that is behind the requester
    /// refuses; any other node grants, the requester's equal included.
    pub open spec fn answer(self, request: RaftMessageBody) -> RaftMessage {
        if is_behind(self.current_term, self.log.len() as usize, request) {
            RaftMessage::RejectCandidateVote(self.body())
        } else {
            RaftMessage::VoteForCandidate(self.body())
        }
    }

    /// The node after a granted vote has arrived. Only a candidate counts
    /// votes: it keeps the first vote of each voter and becomes leader as soon
    /// as the granted votes reach the quorum of `members` nodes.
    pub open spec fn with_vote(self, members: nat, vote: RaftMessage) -> Buddy {
        if self.role == Role::Candidate {
            let voter = vote.body().id.0;
            let votes = if self.votes.contains_key(voter) {
                self.votes
            } else {
                self.votes.insert(voter, vote)
            };
            Buddy {
                role: if granted(votes) >= quorum(members) {
                    Role::Leader
                } else {
                    Role::Candidate
                },
                votes,
                ..self
            }
        } else {
            self
        }
    }

    /// The node after a refusal has arrived. A refusal from a later term makes
    /// the node a follower of that term; any other refusal changes nothing.
    pub open spec fn with_rejection(self, rejection: RaftMessageBody) -> Buddy {
        if rejection.current_term > self.current_term {
            Buddy { role: Role::Follower, current_term: rejection.current_term, ..self }
        } else {
            self
        }
    }

    /// The node after it has handled `message` among `members` nodes.
    pub open spec fn received(self, members: nat, message: RaftMessage) -> Buddy {
        match message {
            RaftMessage::RequestVote(_) => self,
            RaftMessage::VoteForCandidate(_) => self.with_vote(members, message),
            RaftMessage::RejectCandidateVote(body) => self.with_rejection(body),
        }
    }

    /// The mailboxes after the node has handled `message`: a request for a
    /// vote puts the answer into the requester's mailbox, and nothing else is
    /// ever sent.
    pub open spec fn replied(self, members: Seq<Member>, message: RaftMessage) -> Seq<Member> {
        match message {
            RaftMessage::RequestVote(request) => delivered(members, request.id, self.answer(request)),
            _ => members,
        }
    }

    /// The node and the mailboxes after the node has handled `pending`, the
    /// most recent message first.
    pub open spec fn processed(self, members: Seq<Member>, pending: Seq<RaftMessage>) -> (
        Buddy,
        Seq<Member>,
    )
        decreases pending.len(),
    {
        if pending.len() == 0 {
            (self, members)
        } else {
            let message = pending.last();
            self.received(members.len(), message).processed(
                self.replied(members, message),
                pending.drop_last(),
            )
        }
    }

    /// The request for votes that the node sends as a candidate.
    pub open spec fn request(self) -> RaftMessage {
        RaftMessage::RequestVote(self.body())
    }

    /// The node and the mailboxes after one tick of the node: the timer
    /// advances; every message that waited for the node is handled, the most
    /// recent first; and if the timer fired with this tick, the node turns
    /// candidate, whatever it was, and asks every other member for a vote.
    pub open spec fn ticked(self, members: Seq<Member>) -> (Buddy, Seq<Member>) {
        let timer = self.timer.ticked();
        let (node, members) = (Buddy { timer, ..self }).processed(
            emptied(members, self.id),
            inbox_of(members, self.id),
        );
        if timer.fired() {
            let candidate = Buddy { role: Role::Candidate, ..node };
            (candidate, solicited(members, candidate.id, candidate.request()))
        } else {
            (node, members)
        }
    }
}

/// Whether every request for a vote among `pending` comes from a member, so
/// that there is a mailbox for each answer.
pub open spec fn answerable(members: Seq<Member>, pending: Seq<RaftMessage>) -> bool {
    forall|i: int|
        0 <= i < pending.len() ==> (#[trigger] pending[i] matches RaftMessage::RequestVote(request)
            ==> has_member(members, request.id))
}

/// The timeout of the node at position `slot` of its topology: 100 ticks
/// and ten more for every position before it, so that no two nodes of a
/// topology time out together. It stops at the largest number the machine
/// holds.
pub open spec fn staggered_timeout(slot: int) -> usize {
    if 100 + 10 * slot <= usize::MAX {
        (100 + 10 * slot) as usize
    } else {
        usize::MAX
    }
}

/// The node that starts out for the member named `id` at position `slot`: a
/// follower in term 0 that has the root in its log and no votes.
pub open spec fn recruit(id: RaftId, slot: int) -> Buddy {
    Buddy {
        role: Role::Follower,
        id,
        timer: RaftTimer::armed(staggered_timeout(slot)),
        current_term: 0,
        log: seq![Entry::Root],
        votes: Map::empty(),
    }
}

/// Handling messages changes neither the node's identifier, nor its timer,
/// nor its log; it never lowers the node's term; and it leaves the members
/// of the topology who they were.
pub proof fn lemma_processing_keeps(node: Buddy, members: Seq<Member>, pending: Seq<RaftMessage>)
    ensures
        node.processed(members, pending).0.id == node.id,
        node.processed(members, pending).0.timer == node.timer,
        node.processed(members, pending).0.log == node.log,
        node.processed(members, pending).0.current_term >= node.current_term,
        same_members(members, node.processed(members, pending).1),
    decreases pending.len(),
{
    if pending.len() > 0 {
        let message = pending.last();
        let next = node.received(members.len(), message);
        let world = node.replied(members, message);
        match message {
            RaftMessage::RequestVote(request) => {
                lemma_mail_keeps_members(members, request.id, node.answer(request));
            },
            _ => {},
        }
        lemma_processing_keeps(next, world, pending.drop_last());
        let after = next.processed(world, pending.drop_last()).1;
        assert(same_members(members, after)) by {
            assert forall|i: int| 0 <= i < members.len() implies (#[trigger] members[i]).id
                == after[i].id by {
                assert(world[i].id == after[i].id);
            }
        }
        assert(members.len() == world.len());
    }
}

/// A node that is asked by its equal, a node of the same term with a log of
/// the same length, grants its vote: the granted vote goes into the
/// requester's mailbox, and the node itself stays as it was.
pub proof fn lemma_equal_is_granted(node: Buddy, members: Seq<Member>, request: RaftMessageBody)
    requires
        request.current_term == node.current_term,
        request.log_length == node.body().log_length,
    ensures
        node.answer(request) == RaftMessage::VoteForCandidate(node.body()),
        node.replied(members, RaftMessage::RequestVote(request)) == delivered(
            members,
            request.id,
            RaftMessage::VoteForCandidate(node.body()),
        ),
        node.received(members.len(), RaftMessage::RequestVote(request)) == node,
{
}

/// A node refuses exactly the requesters it is behind: those of a later
/// term, and those of its own term with a longer log.
pub proof fn lemma_refuses_when_behind(node: Buddy, request: RaftMessageBody)
    ensures
        node.answer(request) is RejectCandidateVote <==> node.current_term < request.current_term
            || (node.current_term == request.current_term && node.body().log_length
            < request.log_length),
        node.answer(request) is VoteForCandidate || node.answer(request) is RejectCandidateVote,
        node.answer(request).body() == node.body(),
{
}

/// The first vote recorded for a voter adds one to the granted votes if it is
/// a granted one, and nothing otherwise.
pub proof fn lemma_new_vote_counts(votes: Map<usize, RaftMessage>, voter: usize, vote: RaftMessage)
    requires
        votes.dom().finite(),
        !votes.contains_key(voter),
    ensures
        granting_voters(votes).finite(),
        granted(votes.insert(voter, vote)) == granted(votes) + if vote is VoteForCandidate {
            1nat
        } else {
            0nat
        },
{
    let before = granting_voters(votes);
    let after = granting_voters(votes.insert(voter, vote));
    assert(before.subset_of(votes.dom()));
    vstd::set_lib::lemma_len_subset(before, votes.dom());
    if vote is VoteForCandidate {
        assert(after =~= before.insert(voter));
    } else {
        assert(after =~= before);
    }
}

/// A candidate that hears a granted vote of a new voter is leader afterwards
/// if the granted votes, this one included, reach the quorum, and is still a
/// candidate if they do not. Among five members the third granted vote makes
/// the leader, and the second does not.
pub proof fn lemma_quorum_makes_leader(node: Buddy, members: nat, vote: RaftMessage)
    requires
        node.role == Role::Candidate,
        node.votes.dom().finite(),
        vote is VoteForCandidate,
        !node.votes.contains_key(vote.body().id.0),
    ensures
        granted(node.received(members, vote).votes) == granted(node.votes) + 1,
        granted(node.votes) + 1 >= quorum(members) ==> node.received(members, vote).role
            == Role::Leader,
        granted(node.votes) + 1 < quorum(members) ==> node.received(members, vote).role
            == Role::Candidate,
        quorum(5) == 3,
{
    lemma_new_vote_counts(node.votes, vote.body().id.0, vote);
}

/// A vote of a voter that has one on record changes nothing but, possibly,
/// the role: the record keeps the first vote.
pub proof fn lemma_first_vote_stays(node: Buddy, members: nat, vote: RaftMessage)
    requires
        vote is VoteForCandidate,
        node.votes.contains_key(vote.body().id.0),
    ensures
        node.received(members, vote).votes == node.votes,
{
}

/// No message makes a follower anything else.
pub proof fn lemma_follower_stays(node: Buddy, members: Seq<Member>, pending: Seq<RaftMessage>)
    requires
        node.role == Role::Follower,
    ensures
        node.processed(members, pending).0.role == Role::Follower,
    decreases pending.len(),
{
    if pending.len() > 0 {
        let message = pending.last();
        lemma_follower_stays(
            node.received(members.len(), message),
            node.replied(members, message),
            pending.drop_last(),
        );
    }
}

/// What a tick never changes, and what it always does: the node keeps its
/// identifier and its log, its term does not fall, its timer advances by one
/// tick, and the members of the topology stay who they were. A tick that
/// fires leaves a candidate; a tick that does not fire leaves a follower a
/// follower.
pub proof fn lemma_tick_keeps(node: Buddy, members: Seq<Member>)
    ensures
        node.ticked(members).0.id == node.id,
        node.ticked(members).0.log == node.log,
        node.ticked(members).0.current_term >= node.current_term,
        node.ticked(members).0.timer == node.timer.ticked(),
        same_members(members, node.ticked(members).1),
        node.timer.ticked().fired() ==> node.ticked(members).0.role == Role::Candidate,
        !node.timer.ticked().fired() && node.role == Role::Follower ==> node.ticked(members).0.role
            == Role::Follower,
{
    let wound = Buddy { timer: node.timer.ticked(), ..node };
    let cleared = emptied(members, node.id);
    let pending = inbox_of(members, node.id);
    lemma_emptying_keeps_members(members, node.id);
    lemma_processing_keeps(wound, cleared, pending);
    if node.role == Role::Follower {
        lemma_follower_stays(wound, cleared, pending);
    }
    let (after, world) = wound.processed(cleared, pending);
    let candidate = Buddy { role: Role::Candidate, ..after };
    lemma_mail_keeps_members(world, candidate.id, candidate.request());
    let last = node.ticked(members).1;
    assert(same_members(members, last)) by {
        assert forall|i: int| 0 <= i < members.len() implies (#[trigger] members[i]).id
            == last[i].id by {
            assert(cleared[i].id == world[i].id);
            assert(world[i].id == last[i].id);
        }
    }
}

/// A node with nothing in its mailbox whose timer fires turns candidate and
/// puts one request for a vote, with its own term and log length, into the
/// mailbox of every other member and none into its own.
pub proof fn lemma_candidate_asks_every_peer(node: Buddy, members: Seq<Member>)
    requires
        ordered(members),
        has_member(members, node.id),
        inbox_of(members, node.id).len() == 0,
        node.timer.ticked().fired(),
    ensures
        node.ticked(members).0 == (Buddy {
            role: Role::Candidate,
            timer: node.timer.ticked(),
            ..node
        }),
        node.ticked(members).1.len() == members.len(),
        forall|i: int|
            0 <= i < members.len() ==> (#[trigger] node.ticked(members).1[i]) == (Member {
                id: members[i].id,
                inbox: if members[i].id == node.id {
                    members[i].inbox
                } else {
                    members[i].inbox.push(RaftMessage::RequestVote(node.body()))
                },
            }),
{
    let slot = slot_of(members, node.id);
    lemma_clear_empties(members, slot);
    assert(members[slot].inbox =~= Seq::<RaftMessage>::empty());
    assert(members.update(slot, members[slot]) =~= members);
}

/// The nodes and the mailboxes after the first `n` nodes have ticked once,
/// one after the other.
pub open spec fn ticked_upto(nodes: Seq<Buddy>, members: Seq<Member>, n: nat) -> (
    Seq<Buddy>,
    Seq<Member>,
)
    decreases n,
{
    if n == 0 {
        (nodes, members)
    } else {
        let (nodes, members) = ticked_upto(nodes, members, (n - 1) as nat);
        let (node, members) = nodes[n - 1].ticked(members);
        (nodes.update(n - 1, node), members)
    }
}

/// The nodes and the mailboxes after one round: every node has ticked once,
/// in the order of `nodes`.
pub open spec fn round(nodes: Seq<Buddy>, members: Seq<Member>) -> (Seq<Buddy>, Seq<Member>) {
    ticked_upto(nodes, members, nodes.len())
}

/// The nodes and the mailboxes after `rounds` rounds.
pub open spec fn after_rounds(nodes: Seq<Buddy>, members: Seq<Member>, rounds: nat) -> (
    Seq<Buddy>,
    Seq<Member>,
)
    decreases rounds,
{
    if rounds == 0 {
        (nodes, members)
    } else {
        let (nodes, members) = after_rounds(nodes, members, (rounds - 1) as nat);
        round(nodes, members)
    }
}

/// Whether a round leads from `before` to `after` as far as timers and roles
/// go: every timer has advanced by one tick, every node whose timer fired is
/// a candidate, and every follower whose timer did not fire is a follower.
pub open spec fn one_tick_later(before: Buddy, after: Buddy) -> bool {
    &&& after.timer == before.timer.ticked()
    &&& before.timer.ticked().fired() ==> after.role == Role::Candidate
    &&& !before.timer.ticked().fired() && before.role == Role::Follower ==> after.role
        == Role::Follower
}

proof fn lemma_ticked_upto(nodes: Seq<Buddy>, members: Seq<Member>, n: nat)
    requires
        n <= nodes.len(),
    ensures
        ticked_upto(nodes, members, n).0.len() == nodes.len(),
        forall|i: int|
            0 <= i < n ==> one_tick_later(nodes[i], #[trigger] ticked_upto(nodes, members, n).0[i]),
        forall|i: int|
            n <= i < nodes.len() ==> #[trigger] ticked_upto(nodes, members, n).0[i] == nodes[i],
    decreases n,
{
    if n > 0 {
        lemma_ticked_upto(nodes, members, (n - 1) as nat);
        let (sofar, world) = ticked_upto(nodes, members, (n - 1) as nat);
        lemma_tick_keeps(sofar[n - 1], world);
    }
}

/// In one round every node's timer advances by one tick, every node whose
/// timer fires turns candidate, and every follower whose timer does not fire
/// stays a follower, whatever waits in the mailboxes.
pub proof fn lemma_round(nodes: Seq<Buddy>, members: Seq<Member>)
    ensures
        round(nodes, members).0.len() == nodes.len(),
        forall|i: int|
            0 <= i < nodes.len() ==> one_tick_later(nodes[i], #[trigger] round(nodes, members).0[i]),
{
    lemma_ticked_upto(nodes, members, nodes.len());
}

/// As long as no timer has run down, rounds change no role: after `rounds`
/// rounds, with every timeout above `rounds`, all nodes are followers still
/// and every timer has counted `rounds` ticks down.
pub proof fn lemma_quiet_rounds(nodes: Seq<Buddy>, members: Seq<Member>, rounds: nat)
    requires
        forall|i: int| 0 <= i < nodes.len() ==> (#[trigger] nodes[i]).role == Role::Follower,
        forall|i: int|
            0 <= i < nodes.len() ==> (#[trigger] nodes[i]).timer == RaftTimer::armed(
                nodes[i].timer.default_timeout,
            ),
        forall|i: int| 0 <= i < nodes.len() ==> rounds < (#[trigger] nodes[i]).timer.default_timeout,
    ensures
        after_rounds(nodes, members, rounds).0.len() == nodes.len(),
        forall|i: int|
            0 <= i < nodes.len() ==> (#[trigger] after_rounds(nodes, members, rounds).0[i]).role
                == Role::Follower,
        forall|i: int|
            0 <= i < nodes.len() ==> (#[trigger] after_rounds(nodes, members, rounds).0[i]).timer
                == (RaftTimer {
                default_timeout: nodes[i].timer.default_timeout,
                ticks_left: (nodes[i].timer.default_timeout - rounds) as usize,
            }),
    decreases rounds,
{
    if rounds > 0 {
        lemma_quiet_rounds(nodes, members, (rounds - 1) as nat);
        let (sofar, world) = after_rounds(nodes, members, (rounds - 1) as nat);
        lemma_round(sofar, world);
        let now = round(sofar, world).0;
        assert forall|i: int| 0 <= i < nodes.len() implies (#[trigger] now[i]).role
            == Role::Follower && now[i].timer == (RaftTimer {
            default_timeout: nodes[i].timer.default_timeout,
            ticks_left: (nodes[i].timer.default_timeout - rounds) as usize,
        }) by {
            assert(one_tick_later(sofar[i], now[i]));
            assert(sofar[i].role == Role::Follower);
        }
    }
}

/// The node with the smallest timeout is the first to change its role.
///
/// Let all nodes start as followers with their timers armed, and let the
/// node at position `first` have a timeout of at least one tick that is
/// below every other node's. Then all nodes are followers after every round
/// before the round in which that timeout runs down, and after that round
/// the node at `first` is a candidate and all others are followers still.
pub proof fn lemma_first_timeout_wins(nodes: Seq<Buddy>, members: Seq<Member>, first: int)
    requires
        0 <= first < nodes.len(),
        forall|i: int| 0 <= i < nodes.len() ==> (#[trigger] nodes[i]).role == Role::Follower,
        forall|i: int|
            0 <= i < nodes.len() ==> (#[trigger] nodes[i]).timer == RaftTimer::armed(
                nodes[i].timer.default_timeout,
            ),
        nodes[first].timer.default_timeout > 0,
        forall|i: int|
            0 <= i < nodes.len() && i != first ==> nodes[first].timer.default_timeout < (
            #[trigger] nodes[i]).timer.default_timeout,
    ensures
        forall|rounds: nat, i: int|
            rounds < nodes[first].timer.default_timeout && 0 <= i < nodes.len() ==> (
            #[trigger] after_rounds(nodes, members, rounds).0[i]).role == Role::Follower,
        after_rounds(nodes, members, nodes[first].timer.default_timeout as nat).0[first].role
            == Role::Candidate,
        forall|i: int|
            0 <= i < nodes.len() && i != first ==> (#[trigger] after_rounds(
                nodes,
                members,
                nodes[first].timer.default_timeout as nat,
            ).0[i]).role == Role::Follower,
{
    let timeout = nodes[first].timer.default_timeout as nat;
    assert forall|rounds: nat, i: int|
        rounds < timeout && 0 <= i < nodes.len() implies (#[trigger] after_rounds(
        nodes,
        members,
        rounds,
    ).0[i]).role == Role::Follower by {
        lemma_quiet_rounds(nodes, members, rounds);
    }
    lemma_quiet_rounds(nodes, members, (timeout - 1) as nat);
    let (sofar, world) = after_rounds(nodes, members, (timeout - 1) as nat);
    lemma_round(sofar, world);
    let now = round(sofar, world).0;
    assert(now == after_rounds(nodes, members, timeout).0);
    assert(one_tick_later(sofar[first], now[first]));
    assert forall|i: int| 0 <= i < nodes.len() && i != first implies (#[trigger] now[i]).role
        == Role::Follower by {
        assert(one_tick_later(sofar[i], now[i]));
        assert(sofar[i].role == Role::Follower);
    }
}

/// The nodes that start out for `members`, one for each, in their order.
pub open spec fn recruits(members: Seq<Member>) -> Seq<Buddy> {
    Seq::new(members.len(), |slot: int| recruit(members[slot].id, slot))
}

/// Among the nodes that start out for a topology, the one at the first
/// position is the first to change its role: all nodes are followers for 99
/// rounds, and after the 100th round the first node is a candidate and all
/// others are followers still.
pub proof fn lemma_first_recruit_wins(members: Seq<Member>)
    requires
        members.len() > 0,
        100 + 10 * members.len() <= usize::MAX,
    ensures
        forall|rounds: nat, i: int|
            rounds < 100 && 0 <= i < members.len() ==> (#[trigger] after_rounds(
                recruits(members),
                members,
                rounds,
            ).0[i]).role == Role::Follower,
        after_rounds(recruits(members), members, 100).0[0].role == Role::Candidate,
        forall|i: int|
            0 < i < members.len() ==> (#[trigger] after_rounds(recruits(members), members, 100).0[i]).role
                == Role::Follower,
{
    lemma_first_timeout_wins(recruits(members), members, 0);
}

} // verus!
