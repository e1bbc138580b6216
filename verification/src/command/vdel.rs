//! `VDEL index key` removes `key` from `index`.
//!
//! Replies `1` if the key was present, `0` otherwise.

use vstd::prelude::*;

use crate::command::effect::{asks, noted, refused, Effect, Outcome};
use crate::persist::op::Mutation;
use crate::persist::recovery;
use crate::resp;
use crate::resp::{words, Reply, Value};
use crate::state::State;
use crate::vector::index::Memory;

verus! {

/// What `VDEL` asks for, and what it leaves.
pub open spec fn done(persistent: bool, m: Map<Seq<u8>, Memory>, args: Seq<Seq<u8>>) -> (
    Effect,
    Map<Seq<u8>, Memory>,
) {
    let (name, key) = (args[0], args[1]);
    if !m.contains_key(name) {
        (refused("ERR no such index"@), m)
    } else if !m[name].entries().contains_key(key) {
        (Effect::Reply(Reply::Integer(0)), m)
    } else {
        (
            noted(persistent, Mutation::Del { name, key }, Reply::Integer(1)),
            m.insert(name, m[name].without(key)),
        )
    }
}

/// Serves `VDEL`. `args` are the arguments after the name of the command.
pub fn vdel(args: &[Vec<u8>], state: &mut State) -> (r: Outcome)
    requires
        old(state).wf(),
        args@.len() >= 2,
    ensures
        final(state).wf(),
        final(state).keeps(*old(state)),
        ({
            let (effect, after) = done(
                old(state).persistent,
                old(state).vectors@,
                words(args@),
            );
            asks(r, effect) && final(state).vectors@ == after
        }),
{
    let name = args[0].as_slice();
    let key = args[1].as_slice();
    let ghost before = state.vectors@;
    let removed = match state.vectors.get_mut(name) {
        Some(index) => index.remove(key),
        None => return Outcome::Reply(resp::error("ERR no such index")),
    };
    if !removed {
        proof {
            old(state).vectors.lemma_names();
            lemma_nothing_to_remove(before[name@], key@);
            assert(state.vectors@ =~= before);
        }
        return Outcome::Reply(Value::Integer(0));
    }
    if state.persistent {
        Outcome::Logged { frame: recovery::log_del(name, key), reply: Value::Integer(1) }
    } else {
        Outcome::Reply(Value::Integer(1))
    }
}

/// Removing a key that is not there changes nothing.
proof fn lemma_nothing_to_remove(memory: Memory, key: Seq<u8>)
    requires
        !memory.entries().contains_key(key),
    ensures
        memory.without(key) == memory,
{
    assert forall|i: int| 0 <= i < memory.keys.len() implies memory.keys[i] != Some(key) by {
        if memory.keys[i] == Some(key) {
            assert(memory.keys.contains(Some(key)));
        }
    }
    assert(memory.without(key).keys =~= memory.keys);
}

} // verus!
