use std::collections::BTreeMap;
use vstd::prelude::*;
use vstd::std_specs::convert::FromSpecImpl;
use vstd::std_specs::iter::IteratorSpec;

use crate::raft_channel::{Channel, RaftChannel};
use crate::raft_id::RaftId;
use crate::raft_log::{Entry, RaftLog};
use crate::raft_message::{RaftMessage, RaftMessageBody};
use crate::raft_temporal::{RaftTimer, Temporal};
use crate::raft_election::{
    answerable, granted, granting_voters, lemma_processing_keeps, lemma_tick_keeps, quorum,
    recruit, recruits, Buddy,
};
use crate::raft_topology::{
    delivered, emptied, inbox_of, lemma_clear_empties, lemma_emptying_keeps_members,
    lemma_mail_keeps_members, lemma_push_delivers, lemma_same_members, ordered, same_members,
    slot_of, solicited, Member, Topology,
};

verus! {

/// What a node currently is in the election.
#[derive(PartialEq, Eq, Structural, Clone, Copy, Debug)]
pub enum Role {
    Follower,
    Candidate,
    Leader,
}

/// A participant: its role and term, its log, its election timer and the
/// votes it has collected, at most one per voter.
///
/// A node owns no mailbox. Its own and its peers' mailboxes live in the
/// topology that every call is handed.
#[derive(Debug)]
pub struct RaftBuddy {
    pub role: Role,
    pub id: RaftId,
    pub timer: RaftTimer,
    pub current_term: usize,
    pub log: RaftLog,
    /// The first vote received from each voter, by the voter's number.
    pub votes_received: BTreeMap<usize, RaftMessage>,
}

/// Whether `slots` lists the positions of all members but the one named
/// `id`, each once and from the lowest upward.
pub open spec fn lists_peers(slots: Seq<usize>, members: Seq<Member>, id: RaftId) -> bool {
    &&& forall|k: int|
        0 <= k < slots.len() ==> (#[trigger] slots[k]) < members.len() && members[slots[k] as int].id
            != id
    &&& forall|k: int, l: int|
        0 <= k < l < slots.len() ==> (#[trigger] slots[k]) < (#[trigger] slots[l])
    &&& forall|slot: int|
        0 <= slot < members.len() && (#[trigger] members[slot]).id != id ==> exists|k: int|
            0 <= k < slots.len() && #[trigger] slots[k] == slot
}

impl View for RaftBuddy {
    type V = Buddy;

    open spec fn view(&self) -> Buddy {
        Buddy {
            role: self.role,
            id: self.id,
            timer: self.timer,
            current_term: self.current_term,
            log: self.log@,
            votes: self.votes_received@,
        }
    }
}

impl Default for RaftBuddy {
    /// A follower named 0 in term 0, with a log that holds the root only, no
    /// votes, and a timer of 100 ticks.
    fn default() -> (buddy: Self)
        ensures
            buddy@ == (Buddy {
                role: Role::Follower,
                id: RaftId(0),
                timer: RaftTimer::armed(100),
                current_term: 0,
                log: seq![Entry::Root],
                votes: Map::empty(),
            }),
    {
        RaftBuddy {
            role: Role::Follower,
            id: RaftId(0),
            timer: RaftTimer { default_timeout: 100, ticks_left: 100 },
            current_term: 0,
            log: RaftLog::default(),
            votes_received: BTreeMap::new(),
        }
    }
}

impl From<&Topology> for Vec<RaftBuddy> {
    /// One node for each member of the topology, in the topology's order.
    fn from(topology: &Topology) -> (buddies: Self)
        ensures
            buddies@.len() == topology@.len(),
            forall|slot: int|
                0 <= slot < buddies@.len() ==> (#[trigger] buddies@[slot])@ == recruits(
                    topology@,
                )[slot],
    {
        let mut buddies: Vec<RaftBuddy> = Vec::new();
        let mut index: usize = 0;
        while index < topology.len()
            invariant
                index <= topology@.len(),
                buddies@.len() == index,
                forall|slot: int|
                    0 <= slot < index ==> (#[trigger] buddies@[slot])@ == recruit(
                        topology@[slot].id,
                        slot,
                    ),
            decreases topology@.len() - index,
        {
            let timeout = match index.checked_mul(10) {
                Some(offset) => 100usize.saturating_add(offset),
                None => usize::MAX,
            };
            let mut buddy = RaftBuddy::default();
            buddy.id = topology.id_at(index);
            buddy.timer = RaftTimer { default_timeout: timeout, ticks_left: timeout };
            buddies.push(buddy);
            index += 1;
        }
        buddies
    }
}

/// A vector of nodes cannot be written down as a ghost value, so the
/// conversion states its result in its own `ensures` and leaves `from_spec`
/// unused.
impl FromSpecImpl<&Topology> for Vec<RaftBuddy> {
    open spec fn obeys_from_spec() -> bool {
        false
    }

    open spec fn from_spec(topology: &Topology) -> Self {
        arbitrary()
    }
}

impl RaftBuddy {
    /// Makes the node a candidate, whatever it was.
    pub fn become_candidate(&mut self)
        ensures
            final(self)@ == (Buddy { role: Role::Candidate, ..old(self)@ }),
    {
        self.role = Role::Candidate;
    }

    /// Makes the node the leader, whatever it was.
    pub fn become_leader(&mut self)
        ensures
            final(self)@ == (Buddy { role: Role::Leader, ..old(self)@ }),
    {
        self.role = Role::Leader;
    }

    /// Whether the node is the leader.
    pub fn is_leader(&self) -> (yes: bool)
        ensures
            yes == (self.role == Role::Leader),
    {
        self.role == Role::Leader
    }

    /// Whether the node is a candidate.
    pub fn is_candidate(&self) -> (yes: bool)
        ensures
            yes == (self.role == Role::Candidate),
    {
        self.role == Role::Candidate
    }

    /// What the node says of itself in every message it sends.
    pub fn body(&self) -> (body: RaftMessageBody)
        ensures
            body == self@.body(),
    {
        RaftMessageBody { id: self.id, current_term: self.current_term, log_length: self.log.len() }
    }

    /// The node's own mailbox, to look into.
    pub fn channel<'a>(&self, topology: &'a Topology) -> (channel: &'a RaftChannel)
        requires
            topology.wf(),
            topology.contains(self.id),
        ensures
            channel@ == inbox_of(topology@, self.id),
    {
        let slot = topology.slot_of(self.id).unwrap();
        topology.channel(slot)
    }

    /// The mailbox of the member named `id`, to push into.
    pub fn get_channel<'a>(&self, topology: &'a mut Topology, id: RaftId) -> (channel: &'a mut RaftChannel)
        requires
            old(topology).wf(),
            old(topology).contains(id),
        ensures
            channel@ == inbox_of(old(topology)@, id),
            final(topology)@ == old(topology)@.update(
                slot_of(old(topology)@, id),
                Member { id, inbox: final(channel)@ },
            ),
    {
        let slot = topology.slot_of(id).unwrap();
        topology.channel_mut(slot)
    }

    /// Whether anything waits in the node's own mailbox.
    pub fn has_messages(&self, topology: &Topology) -> (yes: bool)
        requires
            topology.wf(),
            topology.contains(self.id),
        ensures
            yes == (inbox_of(topology@, self.id).len() > 0),
    {
        !self.channel(topology).all_messages().is_empty()
    }

    /// Grants the vote that the member named `candidate_id` asked for.
    pub fn accept_candidate(&self, topology: &mut Topology, candidate_id: RaftId)
        requires
            old(topology).wf(),
            old(topology).contains(candidate_id),
        ensures
            final(topology).wf(),
            final(topology)@ == delivered(
                old(topology)@,
                candidate_id,
                RaftMessage::VoteForCandidate(self@.body()),
            ),
            same_members(old(topology)@, final(topology)@),
    {
        let vote = RaftMessage::VoteForCandidate(self.body());
        proof {
            let slot = slot_of(topology@, candidate_id);
            lemma_push_delivers(topology@, slot, vote);
            lemma_mail_keeps_members(topology@, candidate_id, vote);
            lemma_same_members(topology@, delivered(topology@, candidate_id, vote));
        }
        self.get_channel(topology, candidate_id).push(vote);
    }

    /// Refuses the vote that the member named `candidate_id` asked for.
    pub fn reject_candidate(&self, topology: &mut Topology, candidate_id: RaftId)
        requires
            old(topology).wf(),
            old(topology).contains(candidate_id),
        ensures
            final(topology).wf(),
            final(topology)@ == delivered(
                old(topology)@,
                candidate_id,
                RaftMessage::RejectCandidateVote(self@.body()),
            ),
            same_members(old(topology)@, final(topology)@),
    {
        let refusal = RaftMessage::RejectCandidateVote(self.body());
        proof {
            let slot = slot_of(topology@, candidate_id);
            lemma_push_delivers(topology@, slot, refusal);
            lemma_mail_keeps_members(topology@, candidate_id, refusal);
            lemma_same_members(topology@, delivered(topology@, candidate_id, refusal));
        }
        self.get_channel(topology, candidate_id).push(refusal);
    }

    /// Whether the granted votes recorded so far reach the quorum of the
    /// topology's members.
    pub fn received_majority_votes(&self, topology: &Topology) -> (yes: bool)
        ensures
            yes == (granted(self@.votes) >= quorum(topology@.len())),
    {
        let majority = topology.len() / 2 + 1;
        let mut received: usize = 0;
        let recorded = self.votes_received.len();
        for vote in votes: self.votes_received.values()
            invariant
                received == granted_among(votes.seq().take(votes.index())),
                received <= votes.index(),
                votes.seq().len() == recorded,
                lists_votes(votes.seq(), self.votes_received@),
        {
            proof {
                let all = votes.seq();
                let seen = votes.index();
                assert(all.take(seen + 1).drop_last() =~= all.take(seen));
                assert(all.take(seen + 1).last() == vote);
            }
            if let RaftMessage::VoteForCandidate(_) = vote {
                received += 1;
            }
        }
        proof {
            let all = choose|all: Seq<&RaftMessage>|
                received == granted_among(all) && lists_votes(all, self.votes_received@);
            lemma_granted_among(all, self.votes_received@);
        }
        received >= majority
    }

    /// Handles one message: answers a request for a vote, counts a granted
    /// vote, or gives way to a refusal from a later term.
    pub fn receive(&mut self, topology: &mut Topology, message: RaftMessage)
        requires
            old(topology).wf(),
            message matches RaftMessage::RequestVote(request) ==> old(topology).contains(request.id),
        ensures
            final(topology).wf(),
            final(self)@ == old(self)@.received(old(topology)@.len(), message),
            final(topology)@ == old(self)@.replied(old(topology)@, message),
            same_members(old(topology)@, final(topology)@),
    {
        match message {
            RaftMessage::RequestVote(request) => {
                if self.current_term < request.current_term || (self.current_term
                    == request.current_term && self.log.len() < request.log_length) {
                    self.reject_candidate(topology, request.id);
                } else {
                    self.accept_candidate(topology, request.id);
                }
            },
            RaftMessage::VoteForCandidate(vote) => {
                if self.is_candidate() {
                    if !self.votes_received.contains_key(&vote.id.0) {
                        self.votes_received.insert(vote.id.0, message);
                    }
                    if self.received_majority_votes(topology) {
                        self.become_leader();
                    }
                }
            },
            RaftMessage::RejectCandidateVote(rejection) => {
                if rejection.current_term > self.current_term {
                    self.role = Role::Follower;
                    self.current_term = rejection.current_term;
                }
            },
        }
    }

    /// Takes every message that waits for the node out of its mailbox and
    /// handles them, the most recent first. Answers go into the requesters'
    /// mailboxes; an answer to the node itself waits there for the next call.
    pub fn process_inbox(&mut self, topology: &mut Topology)
        requires
            old(topology).wf(),
            old(topology).contains(old(self).id),
            answerable(old(topology)@, inbox_of(old(topology)@, old(self).id)),
        ensures
            final(topology).wf(),
            (final(self)@, final(topology)@) == old(self)@.processed(
                emptied(old(topology)@, old(self).id),
                inbox_of(old(topology)@, old(self).id),
            ),
            same_members(old(topology)@, final(topology)@),
    {
        let ghost before = topology@;
        let ghost pending = inbox_of(before, self.id);
        let ghost start = self@;
        let slot = topology.slot_of(self.id).unwrap();
        let mut taken: Vec<RaftMessage> = Vec::new();
        proof {
            assert(pending.take(pending.len() as int) =~= pending);
            assert(before.update(slot as int, before[slot as int]) =~= before);
        }
        loop
            invariant
                slot < before.len(),
                before[slot as int] == (Member { id: self.id, inbox: pending }),
                taken@.len() <= pending.len(),
                topology@ == before.update(
                    slot as int,
                    Member { id: self.id, inbox: pending.take(pending.len() - taken@.len()) },
                ),
                forall|k: int|
                    0 <= k < taken@.len() ==> #[trigger] taken@[k] == pending[pending.len() - 1 - k],
            ensures
                taken@.len() == pending.len(),
            decreases pending.len() - taken@.len(),
        {
            let ghost left = pending.take(pending.len() - taken@.len());
            let ghost world = topology@;
            match topology.channel_mut(slot).pop() {
                Some(message) => {
                    taken.push(message);
                    proof {
                        assert(left.drop_last() =~= pending.take(pending.len() - taken@.len()));
                        assert(topology@ =~= before.update(
                            slot as int,
                            Member { id: self.id, inbox: left.drop_last() },
                        ));
                    }
                },
                None => {
                    assert(topology@ =~= world);
                    break ;
                },
            }
        }
        proof {
            assert(pending.take(0) =~= Seq::<RaftMessage>::empty());
            lemma_clear_empties(before, slot as int);
            lemma_emptying_keeps_members(before, self.id);
            lemma_same_members(before, topology@);
        }
        let mut handled: usize = 0;
        while handled < taken.len()
            invariant
                handled <= taken@.len(),
                taken@.len() == pending.len(),
                forall|k: int|
                    0 <= k < taken@.len() ==> #[trigger] taken@[k] == pending[pending.len() - 1 - k],
                topology.wf(),
                same_members(before, topology@),
                ordered(before),
                answerable(before, pending),
                start.processed(emptied(before, start.id), pending) == self@.processed(
                    topology@,
                    pending.take(pending.len() - handled),
                ),
            decreases taken@.len() - handled,
        {
            let message = taken[handled];
            let ghost rest = pending.take(pending.len() - handled);
            proof {
                assert(rest.last() == message);
                assert(rest.drop_last() =~= pending.take(pending.len() - handled - 1));
                assert(pending[pending.len() - 1 - handled] == message);
                lemma_same_members(before, topology@);
            }
            self.receive(topology, message);
            handled += 1;
        }
    }

    /// The positions of the mailboxes of all other members, lowest
    /// identifier first.
    pub fn follower_channels(&self, topology: &Topology) -> (slots: Vec<usize>)
        ensures
            lists_peers(slots@, topology@, self.id),
    {
        let mut slots: Vec<usize> = Vec::new();
        let mut slot: usize = 0;
        while slot < topology.len()
            invariant
                slot <= topology@.len(),
                forall|k: int|
                    0 <= k < slots@.len() ==> (#[trigger] slots@[k]) < slot
                        && topology@[slots@[k] as int].id != self.id,
                forall|k: int, l: int|
                    0 <= k < l < slots@.len() ==> (#[trigger] slots@[k]) < (#[trigger] slots@[l]),
                forall|seen: int|
                    0 <= seen < slot && (#[trigger] topology@[seen]).id != self.id ==> exists|k: int|
                        0 <= k < slots@.len() && #[trigger] slots@[k] == seen,
            decreases topology@.len() - slot,
        {
            let ghost before = slots@;
            if topology.id_at(slot) != self.id {
                slots.push(slot);
            }
            proof {
                assert forall|seen: int|
                    0 <= seen < slot + 1 && (#[trigger] topology@[seen]).id
                        != self.id implies exists|k: int|
                    0 <= k < slots@.len() && #[trigger] slots@[k] == seen by {
                    if seen < slot {
                        let k = choose|k: int| 0 <= k < before.len() && #[trigger] before[k] == seen;
                        assert(slots@[k] == seen);
                    } else {
                        assert(slots@[slots@.len() - 1] == seen);
                    }
                }
            }
            slot += 1;
        }
        slots
    }

    /// Asks every other member for a vote: the node's request goes into each
    /// mailbox but its own.
    pub fn solicit_votes(&self, topology: &mut Topology)
        ensures
            final(topology)@ == solicited(old(topology)@, self.id, self@.request()),
            old(topology).wf() ==> final(topology).wf(),
            same_members(old(topology)@, final(topology)@),
    {
        let request = RaftMessage::RequestVote(self.body());
        let peers = self.follower_channels(topology);
        let ghost before = topology@;
        let mut i: usize = 0;
        while i < peers.len()
            invariant
                i <= peers@.len(),
                lists_peers(peers@, before, self.id),
                topology@.len() == before.len(),
                forall|slot: int|
                    0 <= slot < before.len() ==> #[trigger] topology@[slot] == (if slot < (if i
                        < peers@.len() {
                        peers@[i as int] as int
                    } else {
                        before.len() as int
                    }) && before[slot].id != self.id {
                        Member { id: before[slot].id, inbox: before[slot].inbox.push(request) }
                    } else {
                        before[slot]
                    }),
            decreases peers@.len() - i,
        {
            let peer = peers[i];
            let ghost reached = if i + 1 < peers@.len() {
                peers@[i + 1] as int
            } else {
                before.len() as int
            };
            topology.channel_mut(peer).push(request);
            proof {
                assert(peers@[i as int] == peer);
                assert forall|slot: int| 0 <= slot < before.len() implies #[trigger] topology@[slot]
                    == (if slot < reached && before[slot].id != self.id {
                    Member { id: before[slot].id, inbox: before[slot].inbox.push(request) }
                } else {
                    before[slot]
                }) by {
                    if peer < slot < reached && before[slot].id != self.id {
                        let k = choose|k: int| 0 <= k < peers@.len() && #[trigger] peers@[k] == slot;
                        if k < i {
                            assert(peers@[k] < peers@[i as int]);
                        } else if k > i + 1 {
                            assert(peers@[i + 1] < peers@[k]);
                        }
                    }
                    if slot >= reached && i + 1 < peers@.len() {
                        assert(peers@[i as int] < peers@[i + 1]);
                    }
                }
            }
            i += 1;
        }
        proof {
            assert(topology@ =~= solicited(before, self.id, request));
            lemma_mail_keeps_members(before, self.id, request);
            lemma_same_members(before, topology@);
        }
    }

    /// One step of logical time for the node: the timer advances; whatever
    /// waits in the node's mailbox is handled; and if the timer fired with
    /// this tick, the node turns candidate and asks its peers for their votes.
    pub fn tick(&mut self, topology: &mut Topology)
        requires
            old(topology).wf(),
            old(topology).contains(old(self).id),
            answerable(old(topology)@, inbox_of(old(topology)@, old(self).id)),
        ensures
            final(topology).wf(),
            (final(self)@, final(topology)@) == old(self)@.ticked(old(topology)@),
            same_members(old(topology)@, final(topology)@),
    {
        let ghost before = topology@;
        let ghost start = self@;
        proof {
            lemma_tick_keeps(start, before);
        }
        self.timer.tick();
        let ghost wound = self@;
        proof {
            lemma_processing_keeps(
                wound,
                emptied(before, self.id),
                inbox_of(before, self.id),
            );
        }
        if self.has_messages(topology) {
            self.process_inbox(topology);
        } else {
            proof {
                let slot = slot_of(before, self.id);
                lemma_clear_empties(before, slot);
                assert(before[slot].inbox =~= Seq::<RaftMessage>::empty());
                assert(before.update(slot, before[slot]) =~= before);
            }
        }
        assert((self@, topology@) == wound.processed(
            emptied(before, start.id),
            inbox_of(before, start.id),
        ));
        if self.timer.ticks_left == 0 {
            self.become_candidate();
            self.solicit_votes(topology);
        }
    }
}

/// The number of granted votes among `votes`.
spec fn granted_among(votes: Seq<&RaftMessage>) -> nat
    decreases votes.len(),
{
    if votes.len() == 0 {
        0
    } else {
        granted_among(votes.drop_last()) + if *votes.last() is VoteForCandidate {
            1nat
        } else {
            0nat
        }
    }
}

/// Whether `values` are the recorded votes, one for each voter.
spec fn lists_votes(values: Seq<&RaftMessage>, votes: Map<usize, RaftMessage>) -> bool {
    exists|voters: Seq<usize>|
        {
            &&& voters.no_duplicates()
            &&& #[trigger] voters.to_set() == votes.dom()
            &&& values.len() == voters.len()
            &&& forall|i: int| 0 <= i < voters.len() ==> *(#[trigger] values[i]) == votes[voters[i]]
        }
}

/// Counting the granted votes one by one gives the number of voters who
/// granted theirs.
proof fn lemma_granted_among(values: Seq<&RaftMessage>, votes: Map<usize, RaftMessage>)
    requires
        lists_votes(values, votes),
    ensures
        granted_among(values) == granted(votes),
{
    let voters = choose|voters: Seq<usize>|
        {
            &&& voters.no_duplicates()
            &&& #[trigger] voters.to_set() == votes.dom()
            &&& values.len() == voters.len()
            &&& forall|i: int| 0 <= i < voters.len() ==> *(#[trigger] values[i]) == votes[voters[i]]
        };
    lemma_granted_upto(values, voters, votes, voters.len() as int);
    assert(values.take(voters.len() as int) =~= values);
    assert(voters.take(voters.len() as int) =~= voters);
    assert(granting_among(voters, votes) =~= granting_voters(votes)) by {
        assert forall|voter: usize| votes.contains_key(voter) implies voters.contains(voter) by {
            assert(voters.to_set().contains(voter));
        }
        assert forall|voter: usize| voters.contains(voter) implies votes.contains_key(voter) by {
            assert(voters.to_set().contains(voter));
        }
    }
}

/// Those of `voters` whose recorded vote is a granted one.
spec fn granting_among(voters: Seq<usize>, votes: Map<usize, RaftMessage>) -> Set<usize> {
    Set::new(|voter: usize| voters.contains(voter) && votes[voter] is VoteForCandidate)
}

proof fn lemma_granted_upto(
    values: Seq<&RaftMessage>,
    voters: Seq<usize>,
    votes: Map<usize, RaftMessage>,
    n: int,
)
    requires
        0 <= n <= voters.len(),
        voters.no_duplicates(),
        values.len() == voters.len(),
        forall|i: int| 0 <= i < voters.len() ==> *(#[trigger] values[i]) == votes[voters[i]],
    ensures
        granting_among(voters.take(n), votes).finite(),
        granted_among(values.take(n)) == granting_among(voters.take(n), votes).len(),
    decreases n,
{
    if n == 0 {
        assert(granting_among(voters.take(0), votes) =~= Set::<usize>::empty());
    } else {
        lemma_granted_upto(values, voters, votes, n - 1);
        let voter = voters[n - 1];
        let prefix = voters.take(n - 1);
        let whole = voters.take(n);
        let fewer = granting_among(prefix, votes);
        let more = granting_among(whole, votes);
        assert(values.take(n).drop_last() =~= values.take(n - 1));
        assert(values.take(n).last() == values[n - 1]);
        assert(whole =~= prefix.push(voter));
        assert(!prefix.contains(voter)) by {
            if prefix.contains(voter) {
                let i = choose|i: int| 0 <= i < prefix.len() && prefix[i] == voter;
                assert(voters[i] == voters[n - 1]);
            }
        }
        assert forall|other: usize| #[trigger]
            whole.contains(other) <==> prefix.contains(other) || other == voter by {
            if prefix.contains(other) {
                let i = choose|i: int| 0 <= i < prefix.len() && prefix[i] == other;
                assert(whole[i] == other);
            }
            if whole.contains(other) && other != voter {
                let i = choose|i: int| 0 <= i < whole.len() && whole[i] == other;
                assert(prefix[i] == other);
            }
            assert(whole[n - 1] == voter);
        }
        if votes[voter] is VoteForCandidate {
            assert(more =~= fewer.insert(voter));
        } else {
            assert(more =~= fewer);
        }
    }
}

} // verus!
