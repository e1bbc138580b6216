//! `VNEW index dim [METRIC cosine|l2|dot]` creates a vector index.
//!
//! The metric defaults to `cosine`. It is an error if `index` already exists.

use vstd::prelude::*;

use crate::codec;
use crate::command::effect::{asks, noted, refused, Effect, Outcome};
use crate::persist::op::Mutation;
use crate::persist::recovery;
use crate::resp;
use crate::resp::{words, Reply};
use crate::state::State;
use crate::text;
use crate::vector::index::Memory;
use crate::vector::metric::Metric;

verus! {

/// The metric that the arguments ask for, or what is wrong with them.
pub open spec fn metric_asked(args: Seq<Seq<u8>>) -> Result<Metric, Seq<char>> {
    if args.len() == 2 {
        Ok(Metric::Cosine)
    } else if args.len() == 4 && text::spelled(args[2], "metric"@) {
        match Metric::named(args[3]) {
            Some(m) => Ok(m),
            None => Err("ERR unknown metric"@),
        }
    } else {
        Err("ERR syntax error"@)
    }
}

/// The dimension and the metric that the arguments ask for, or what is wrong with
/// them.
pub open spec fn asked(args: Seq<Seq<u8>>) -> Result<(usize, Metric), Seq<char>> {
    match text::usize_in(args[1]) {
        Some(dim) => if dim > 0 {
            match metric_asked(args) {
                Ok(m) => Ok((dim, m)),
                Err(e) => Err(e),
            }
        } else {
            Err("ERR dimension must be a positive integer"@)
        },
        None => Err("ERR dimension must be a positive integer"@),
    }
}

/// The mutation that creates an index.
pub open spec fn creation(name: Seq<u8>, dim: usize, metric: Metric) -> Mutation {
    Mutation::New { name, dim: (dim as nat % 0x1_0000_0000) as u32, metric: metric.tag() }
}

/// What `VNEW` asks for, and what it leaves.
pub open spec fn done(persistent: bool, m: Map<Seq<u8>, Memory>, args: Seq<Seq<u8>>) -> (
    Effect,
    Map<Seq<u8>, Memory>,
) {
    match asked(args) {
        Err(e) => (refused(e), m),
        Ok((dim, metric)) => if m.contains_key(args[0]) {
            (refused("ERR index already exists"@), m)
        } else {
            (
                noted(persistent, creation(args[0], dim, metric), Reply::Simple("OK"@)),
                m.insert(args[0], Memory::fresh(dim as nat, metric)),
            )
        },
    }
}

/// Reads what the arguments ask for.
fn read(args: &[Vec<u8>]) -> (r: Result<(usize, Metric), &'static str>)
    requires
        args@.len() >= 2,
    ensures
        match r {
            Ok(x) => asked(words(args@)) == Ok::<(usize, Metric), Seq<char>>(x),
            Err(e) => asked(words(args@)) == Err::<(usize, Metric), Seq<char>>(e@),
        },
{
    let dim: usize = match text::parse_usize(args[1].as_slice()) {
        Some(d) => d,
        None => return Err("ERR dimension must be a positive integer"),
    };
    if dim == 0 {
        return Err("ERR dimension must be a positive integer");
    }
    if args.len() == 2 {
        return Ok((dim, Metric::Cosine));
    }
    proof {
        reveal_strlit("metric");
    }
    if args.len() == 4 && text::spells(args[2].as_slice(), "metric") {
        match Metric::parse_bytes(args[3].as_slice()) {
            Some(m) => Ok((dim, m)),
            None => Err("ERR unknown metric"),
        }
    } else {
        Err("ERR syntax error")
    }
}

/// Serves `VNEW`. `args` are the arguments after the name of the command.
pub fn vnew(args: &[Vec<u8>], state: &mut State) -> (r: Outcome)
    requires
        old(state).wf(),
        args@.len() >= 2,
    ensures
        final(state).wf(),
        final(state).keeps(*old(state)),
        ({
            let (effect, after) = done(
                old(state).persistent,
                old(state).vectors@,
                words(args@),
            );
            asks(r, effect) && final(state).vectors@ == after
        }),
{
    let (dim, metric) = match read(args) {
        Ok(x) => x,
        Err(e) => return Outcome::Reply(resp::error(e)),
    };
    let name = args[0].as_slice();
    if !state.vectors.create(codec::copied(name), dim, metric) {
        return Outcome::Reply(resp::error("ERR index already exists"));
    }
    if state.persistent {
        Outcome::Logged { frame: recovery::log_new(name, dim, metric), reply: resp::ok() }
    } else {
        Outcome::Reply(resp::ok())
    }
}

} // verus!
