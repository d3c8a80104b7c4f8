use vstd::prelude::*;

use crate::raft_id::RaftId;

verus! {

/// What every message carries: who sent it, and the sender's term and log
/// length at the time of sending.
#[derive(PartialEq, Eq, Structural, Clone, Copy, Debug)]
pub struct RaftMessageBody {
    pub id: RaftId,
    pub current_term: usize,
    pub log_length: usize,
}

/// The three messages of an election.
#[derive(PartialEq, Eq, Structural, Clone, Copy, Debug)]
pub enum RaftMessage {
    /// A candidate asks for a vote.
    RequestVote(RaftMessageBody),
    /// The receiver of a request grants its vote.
    VoteForCandidate(RaftMessageBody),
    /// The receiver of a request refuses its vote.
    RejectCandidateVote(RaftMessageBody),
}

impl RaftMessage {
    /// The body of the message, whatever its kind.
    pub open spec fn body(self) -> RaftMessageBody {
        match self {
            RaftMessage::RequestVote(body) => body,
            RaftMessage::VoteForCandidate(body) => body,
            RaftMessage::RejectCandidateVote(body) => body,
        }
    }
}

} // verus!
