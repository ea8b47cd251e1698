//! Monotonic sequence numbering of commands.

use vstd::prelude::*;

use crate::messages::Message;

verus! {

/// Holds the sequence number of the last applied command; zero means no
/// command has been applied yet.
pub struct Sequencer {
    pub sequence: u64,
}

impl Sequencer {
    /// Stamps a fresh command (`sequence == 0`) with the next sequence
    /// number, or, during replay, checks that an already stamped command
    /// carries exactly the next number.  A gap is reported, not applied:
    /// the sequencer and the message stand unchanged.
    pub fn apply(&mut self, message: &mut Message) -> (r: Result<(), ()>)
        requires
            old(self).sequence < u64::MAX,
        ensures
            r is Ok <==> (old(message).sequence == 0 || old(message).sequence == old(self).sequence + 1),
            r is Ok ==> {
                &&& final(self).sequence == old(self).sequence + 1
                &&& final(message).sequence == old(self).sequence + 1
                &&& final(message).payload == old(message).payload
            },
            r is Err ==> {
                &&& final(self).sequence == old(self).sequence
                &&& *final(message) == *old(message)
            },
    {
        if message.sequence == 0 {
            message.sequence = self.sequence + 1;
        } else if message.sequence != self.sequence + 1 {
            return Err(());
        }
        self.sequence = self.sequence + 1;
        Ok(())
    }
}

} // verus!
