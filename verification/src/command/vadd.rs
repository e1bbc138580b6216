//! `VADD index key vector` stores `vector` under `key` in `index`.
//!
//! `vector` is packed little-endian numbers. Replies `1` if `key` is new, `0` if
//! it overwrote an existing key.

use vstd::prelude::*;
use vstd::string::StringExecFns;

use crate::codec;
use crate::command::effect::{asks, noted, refused, Effect, Outcome};
use crate::persist::op::Mutation;
use crate::persist::recovery;
use crate::persist::room::{extents, room};
use crate::resp;
use crate::resp::{words, Reply, Value};
use crate::state::State;
use crate::text;
use crate::vector;
use crate::vector::float;
use crate::vector::float::{Float, Operation};
use crate::vector::hnsw;
use crate::vector::index;
use crate::vector::index::Memory;

verus! {

/// The message for a vector that does not fit its index.
pub open spec fn wrong_dimension(expected: nat, got: nat) -> Seq<char> {
    "ERR wrong vector dimension: index expects "@ + text::decimal(expected) + ", got "@
        + text::decimal(got)
}

/// The error reply for a vector that does not fit its index.
pub fn dimension_error(expected: usize, got: usize) -> (r: Value)
    ensures
        resp::says(r, Reply::Error(wrong_dimension(expected as nat, got as nat))),
{
    let mut s = String::from_str("ERR wrong vector dimension: index expects ");
    text::push_decimal(&mut s, expected as u64);
    s.append(", got ");
    text::push_decimal(&mut s, got as u64);
    Value::Error(s)
}

/// What is wrong with the arguments, if anything.
pub open spec fn refusal(m: Map<Seq<u8>, Memory>, args: Seq<Seq<u8>>) -> Option<Seq<char>> {
    if !m.contains_key(args[0]) {
        Some("ERR no such index"@)
    } else {
        match vector::unpacked(args[2]) {
            None => Some("ERR invalid vector encoding"@),
            Some(v) => if v.len() != m[args[0]].dim {
                Some(wrong_dimension(m[args[0]].dim, v.len()))
            } else {
                None
            },
        }
    }
}

/// Whether `VADD` may ask for `effect` and leave `after`. The payload is logged
/// as received.
pub open spec fn done<A: Fn(Operation<'_>) -> Float, L: Fn(u64, u64, usize) -> u8>(
    arith: A,
    level_of: L,
    persistent: bool,
    m: Map<Seq<u8>, Memory>,
    args: Seq<Seq<u8>>,
    effect: Effect,
    after: Map<Seq<u8>, Memory>,
) -> bool {
    match refusal(m, args) {
        Some(e) => effect == refused(e) && after == m,
        None => {
            let (name, key, vec) = (args[0], args[1], args[2]);
            &&& effect == noted(
                persistent,
                Mutation::Add { name, key, vec },
                Reply::Integer(
                    if m[name].entries().contains_key(key) {
                        0
                    } else {
                        1
                    },
                ),
            )
            &&& exists|memory: Memory| #[trigger]
                index::added(arith, level_of, m[name], memory, key, vector::unpacked(vec)->0)
                    && after == m.insert(name, memory)
        },
    }
}

/// Serves `VADD`. `args` are the arguments after the name of the command.
pub fn vadd<A: Fn(Operation<'_>) -> Float, L: Fn(u64, u64, usize) -> u8>(
    args: &[Vec<u8>],
    state: &mut State,
    arith: &A,
    level_of: &L,
) -> (r: Outcome)
    requires
        old(state).wf(),
        args@.len() >= 3,
        room(
            extents(old(state).vectors@),
            Mutation::Add { name: args@[0]@, key: args@[1]@, vec: args@[2]@ },
        ),
        float::computes(*arith),
        hnsw::levels(*level_of),
    ensures
        final(state).wf(),
        final(state).keeps(*old(state)),
        exists|effect: Effect| #[trigger]
            asks(r, effect) && done(
                *arith,
                *level_of,
                old(state).persistent,
                old(state).vectors@,
                words(args@),
                effect,
                final(state).vectors@,
            ),
{
    let ghost m = state.vectors@;
    let ghost w = words(args@);
    let name = args[0].as_slice();
    let key = args[1].as_slice();
    let raw = args[2].as_slice();
    let (expected, vec) = match state.vectors.get(name) {
        Some(index) => match vector::decode(raw) {
            Some(vec) => (index.dim(), vec),
            None => {
                let r = Outcome::Reply(resp::error("ERR invalid vector encoding"));
                assert(asks(r, refused("ERR invalid vector encoding"@)));
                return r;
            },
        },
        None => {
            let r = Outcome::Reply(resp::error("ERR no such index"));
            assert(asks(r, refused("ERR no such index"@)));
            return r;
        },
    };
    if vec.len() != expected {
        let r = Outcome::Reply(dimension_error(expected, vec.len()));
        assert(asks(r, refused(wrong_dimension(expected as nat, vec@.len()))));
        return r;
    }
    let ghost v = vec@;
    let mut is_new = false;
    if let Some(index) = state.vectors.get_mut(name) {
        is_new = index.add(codec::copied(key), vec, arith, level_of);
    }
    let reply = Value::Integer(
        if is_new {
            1
        } else {
            0
        },
    );
    let r = if state.persistent {
        Outcome::Logged { frame: recovery::log_add(name, key, raw), reply }
    } else {
        Outcome::Reply(reply)
    };
    proof {
        let op = Mutation::Add { name: name@, key: key@, vec: raw@ };
        let effect = noted(
            old(state).persistent,
            op,
            Reply::Integer(
                if m[name@].entries().contains_key(key@) {
                    0
                } else {
                    1
                },
            ),
        );
        assert(asks(r, effect));
        assert(refusal(m, w) is None);
        let memory = state.vectors@[name@];
        assert(index::added(*arith, *level_of, m[name@], memory, key@, v));
        assert(state.vectors@ == m.insert(name@, memory));
        assert(done(
            *arith,
            *level_of,
            old(state).persistent,
            m,
            w,
            effect,
            state.vectors@,
        ));
    }
    r
}

} // verus!
