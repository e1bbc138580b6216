//! What a command asks of its caller.

use vstd::prelude::*;

use crate::persist::op::Mutation;
use crate::persist::wal;
use crate::resp::{says, Reply, Value};

verus! {

/// What is left to do for a command once it has been applied to the state.
pub enum Outcome {
    /// To send the reply.
    Reply(Value),
    /// To append the frame to the log, right behind its last whole record, and
    /// then to send the reply, whether or not the append succeeded. What may be
    /// behind that record, [`crate::persist::log_end::LogEnd`] says.
    Logged { frame: Vec<u8>, reply: Value },
    /// To write the snapshot file, and then what [`crate::command::vsave`] says.
    Save { snapshot: Vec<u8> },
}

/// What is left to do, as what it says.
pub enum Effect {
    Reply(Reply),
    Logged(Mutation, Reply),
    Save(Seq<u8>),
}

/// Whether `outcome` asks for what `effect` says.
pub open spec fn asks(outcome: Outcome, effect: Effect) -> bool {
    match (outcome, effect) {
        (Outcome::Reply(v), Effect::Reply(r)) => says(v, r),
        (Outcome::Logged { frame, reply }, Effect::Logged(op, r)) => {
            frame@ == wal::framed(op.encoded()) && says(reply, r)
        },
        (Outcome::Save { snapshot }, Effect::Save(bytes)) => snapshot@ == bytes,
        _ => false,
    }
}

/// A reply to a mutation, which is logged if mutations are.
pub open spec fn noted(persistent: bool, op: Mutation, reply: Reply) -> Effect {
    if persistent {
        Effect::Logged(op, reply)
    } else {
        Effect::Reply(reply)
    }
}

/// An error reply and nothing else.
pub open spec fn refused(message: Seq<char>) -> Effect {
    Effect::Reply(Reply::Error(message))
}

} // verus!
