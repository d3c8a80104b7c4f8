use vstd::prelude::*;

use crate::raft_message::RaftMessage;

verus! {

/// What a mailbox must offer, whatever carries the messages.
///
/// `pop` takes out one pending message; which one is up to the
/// implementation. `all_messages` looks without taking.
pub trait Channel {
    /// The messages that wait in the mailbox, oldest first.
    spec fn pending(&self) -> Seq<RaftMessage>;

    fn push(&mut self, message: RaftMessage)
        ensures
            final(self).pending() == old(self).pending().push(message),
    ;

    fn pop(&mut self) -> (message: Option<RaftMessage>)
        ensures
            message is None <==> old(self).pending().len() == 0,
            message is None ==> final(self).pending() == old(self).pending(),
            message is Some ==> exists|i: int|
                0 <= i < old(self).pending().len() && message == Some(
                    #[trigger] old(self).pending()[i],
                ) && final(self).pending() == old(self).pending().remove(i),
    ;

    fn all_messages(&self) -> (messages: Vec<RaftMessage>)
        ensures
            messages@ == self.pending(),
    ;
}

/// An in-memory mailbox. The message pushed last is the first to be popped.
#[derive(PartialEq, Eq, Debug)]
pub struct RaftChannel {
    pub queue: Vec<RaftMessage>,
}

impl View for RaftChannel {
    type V = Seq<RaftMessage>;

    open spec fn view(&self) -> Seq<RaftMessage> {
        self.queue@
    }
}

impl Clone for RaftChannel {
    fn clone(&self) -> (copy: Self)
        ensures
            copy@ == self@,
    {
        RaftChannel { queue: self.all_messages() }
    }
}

impl Default for RaftChannel {
    fn default() -> (channel: Self)
        ensures
            channel@ == Seq::<RaftMessage>::empty(),
    {
        RaftChannel { queue: Vec::new() }
    }
}

impl Channel for RaftChannel {
    open spec fn pending(&self) -> Seq<RaftMessage> {
        self@
    }

    fn push(&mut self, message: RaftMessage) {
        self.queue.push(message);
    }

    fn pop(&mut self) -> (message: Option<RaftMessage>)
        ensures
            old(self)@.len() > 0 ==> message == Some(old(self)@.last()) && final(self)@ == old(
                self,
            )@.drop_last(),
    {
        let message = self.queue.pop();
        proof {
            if old(self)@.len() > 0 {
                let last = old(self)@.len() - 1;
                assert(old(self)@.remove(last) =~= old(self)@.subrange(0, last));
                assert(old(self)@.drop_last() =~= old(self)@.subrange(0, last));
            }
        }
        message
    }

    fn all_messages(&self) -> (messages: Vec<RaftMessage>) {
        let mut messages: Vec<RaftMessage> = Vec::new();
        let mut i: usize = 0;
        while i < self.queue.len()
            invariant
                i <= self.queue.len(),
                messages@ == self.queue@.take(i as int),
            decreases self.queue.len() - i,
        {
            messages.push(self.queue[i]);
            assert(self.queue@.take(i + 1) =~= self.queue@.take(i as int).push(self.queue@[i as int]));
            i += 1;
        }
        assert(self.queue@.take(i as int) =~= self.queue@);
        messages
    }
}

} // verus!
