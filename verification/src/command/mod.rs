//! The commands, and which one a request names.

pub mod effect;
pub mod promises;
pub mod vadd;
pub mod vdel;
pub mod vinfo;
pub mod vnew;
pub mod vsave;
pub mod vsearch;

use vstd::prelude::*;
use vstd::string::StringExecFns;

use crate::codec;
use crate::command::effect::{asks, refused, Effect, Outcome};
use crate::persist::durability::{all_effective, effective, law_mutations_have_one_effect, steps};
use crate::persist::op::Mutation;
use crate::persist::replay::{fitting, lemma_ops_push, op_applied, ops_applied, sound};
use crate::persist::room::{addition_has_room, extents, room};
use crate::resp;
use crate::resp::{says, words, Reply, Value};
use crate::state::State;
use crate::text;
use crate::vector::float;
use crate::vector::float::{Float, Operation};
use crate::vector::hnsw;
use crate::vector::index;
use crate::vector::index::Memory;
use crate::vector::metric;
use crate::vector::registry::contents;

verus! {

/// How many words a command takes, its own name included.
#[derive(Clone, Copy, Debug, PartialEq, Eq, Structural)]
pub enum Arity {
    /// That many.
    Exact(usize),
    /// That many or more.
    Min(usize),
}

impl Arity {
    /// Whether `n` words are as many as it takes.
    pub open spec fn admits(self, n: nat) -> bool {
        match self {
            Arity::Exact(k) => n == k,
            Arity::Min(k) => n >= k,
        }
    }

    /// Whether `n` words are as many as it takes.
    pub fn accepts(self, n: usize) -> (r: bool)
        ensures
            r == self.admits(n as nat),
    {
        match self {
            Arity::Exact(k) => n == k,
            Arity::Min(k) => n >= k,
        }
    }
}

/// The commands.
#[derive(Clone, Copy, Debug, PartialEq, Eq, Structural)]
pub enum Command {
    Vadd,
    Vdel,
    Vinfo,
    Vnew,
    Vsave,
    Vsearch,
}

impl Command {
    /// The name of the command in lower case.
    pub open spec fn name(self) -> Seq<char> {
        match self {
            Command::Vadd => "vadd"@,
            Command::Vdel => "vdel"@,
            Command::Vinfo => "vinfo"@,
            Command::Vnew => "vnew"@,
            Command::Vsave => "vsave"@,
            Command::Vsearch => "vsearch"@,
        }
    }

    /// The command that the bytes name, in letters of either case.
    pub open spec fn named(word: Seq<u8>) -> Option<Command> {
        if text::spelled(word, "vadd"@) {
            Some(Command::Vadd)
        } else if text::spelled(word, "vdel"@) {
            Some(Command::Vdel)
        } else if text::spelled(word, "vinfo"@) {
            Some(Command::Vinfo)
        } else if text::spelled(word, "vnew"@) {
            Some(Command::Vnew)
        } else if text::spelled(word, "vsave"@) {
            Some(Command::Vsave)
        } else if text::spelled(word, "vsearch"@) {
            Some(Command::Vsearch)
        } else {
            None
        }
    }

    /// How many words the command takes.
    pub open spec fn words_taken(self) -> Arity {
        match self {
            Command::Vadd => Arity::Exact(4),
            Command::Vdel => Arity::Exact(3),
            Command::Vinfo => Arity::Exact(2),
            Command::Vnew => Arity::Min(3),
            Command::Vsave => Arity::Exact(1),
            Command::Vsearch => Arity::Min(4),
        }
    }

    /// Looks up the command that the bytes name.
    pub fn find(word: &[u8]) -> (r: Option<Command>)
        ensures
            r == Command::named(word@),
    {
        proof {
            reveal_strlit("vadd");
            reveal_strlit("vdel");
            reveal_strlit("vinfo");
            reveal_strlit("vnew");
            reveal_strlit("vsave");
            reveal_strlit("vsearch");
        }
        if text::spells(word, "vadd") {
            Some(Command::Vadd)
        } else if text::spells(word, "vdel") {
            Some(Command::Vdel)
        } else if text::spells(word, "vinfo") {
            Some(Command::Vinfo)
        } else if text::spells(word, "vnew") {
            Some(Command::Vnew)
        } else if text::spells(word, "vsave") {
            Some(Command::Vsave)
        } else if text::spells(word, "vsearch") {
            Some(Command::Vsearch)
        } else {
            None
        }
    }

    /// The name of the command in lower case.
    pub fn as_str(self) -> (r: &'static str)
        ensures
            r@ == self.name(),
    {
        match self {
            Command::Vadd => "vadd",
            Command::Vdel => "vdel",
            Command::Vinfo => "vinfo",
            Command::Vnew => "vnew",
            Command::Vsave => "vsave",
            Command::Vsearch => "vsearch",
        }
    }

    /// How many words the command takes.
    pub fn arity(self) -> (r: Arity)
        ensures
            r == self.words_taken(),
    {
        match self {
            Command::Vadd => Arity::Exact(4),
            Command::Vdel => Arity::Exact(3),
            Command::Vinfo => Arity::Exact(2),
            Command::Vnew => Arity::Min(3),
            Command::Vsave => Arity::Exact(1),
            Command::Vsearch => Arity::Min(4),
        }
    }
}

/// The message for a command with too many or too few words.
pub open spec fn wrong_count(name: Seq<char>) -> Seq<char> {
    "ERR wrong number of arguments for '"@ + name + "' command"@
}

/// The error reply for a command with too many or too few words.
pub fn wrong_args(name: &str) -> (r: Value)
    ensures
        says(r, Reply::Error(wrong_count(name@))),
{
    let mut s = String::from_str("ERR wrong number of arguments for '");
    s.append(name);
    s.append("' command");
    Value::Error(s)
}

/// Whether serving the words of a request may ask for `effect` and leave `after`.
/// `names` are the names of the indices, in order.
pub open spec fn served<
    A: Fn(Operation<'_>) -> Float,
    L: Fn(u64, u64, usize) -> u8,
    T: Fn(Float) -> Vec<u8>,
>(
    arith: A,
    level_of: L,
    write: T,
    persistent: bool,
    names: Seq<Seq<u8>>,
    m: Map<Seq<u8>, Memory>,
    argv: Seq<Seq<u8>>,
    effect: Effect,
    after: Map<Seq<u8>, Memory>,
) -> bool {
    let args = argv.drop_first();
    match Command::named(argv[0]) {
        None => effect == refused("ERR unknown command"@) && after == m,
        Some(c) => if !c.words_taken().admits(argv.len()) {
            effect == refused(wrong_count(c.name())) && after == m
        } else {
            match c {
                Command::Vadd => vadd::done(arith, level_of, persistent, m, args, effect, after),
                Command::Vdel => (effect, after) == vdel::done(persistent, m, args),
                Command::Vinfo => effect == Effect::Reply(vinfo::answer(m, args)) && after == m,
                Command::Vnew => (effect, after) == vnew::done(persistent, m, args),
                Command::Vsave => effect == vsave::first(persistent, names, m) && after == m,
                Command::Vsearch => {
                    &&& effect is Reply
                    &&& vsearch::answered(arith, write, m, args, effect->Reply_0)
                    &&& after == m
                },
            }
        },
    }
}

/// Whether there is an id left for what a request adds, if it adds anything.
pub open spec fn roomy(m: Map<Seq<u8>, Memory>, argv: Seq<Seq<u8>>) -> bool {
    Command::named(argv[0]) == Some(Command::Vadd) && argv.len() == 4 ==> room(
        extents(m),
        Mutation::Add { name: argv[1], key: argv[2], vec: argv[3] },
    )
}

/// Whether there is an id left for what a request adds, if it adds anything.
pub fn has_room(argv: &[Vec<u8>], state: &State) -> (r: bool)
    requires
        state.wf(),
        argv@.len() > 0,
    ensures
        r == roomy(state.vectors@, words(argv@)),
{
    match Command::find(argv[0].as_slice()) {
        Some(Command::Vadd) => argv.len() != 4 || addition_has_room(
            &state.vectors,
            argv[1].as_slice(),
            argv[3].as_slice(),
        ),
        _ => true,
    }
}

/// Serves a request: applies it to the state and says what is left to do.
pub fn dispatch<
    A: Fn(Operation<'_>) -> Float,
    L: Fn(u64, u64, usize) -> u8,
    T: Fn(Float) -> Vec<u8>,
>(argv: &[Vec<u8>], state: &mut State, arith: &A, level_of: &L, write: &T) -> (r: Outcome)
    requires
        old(state).wf(),
        argv@.len() > 0,
        roomy(old(state).vectors@, words(argv@)),
        float::computes(*arith),
        hnsw::levels(*level_of),
        vsearch::writes(*write),
    ensures
        final(state).wf(),
        final(state).keeps(*old(state)),
        exists|effect: Effect| #[trigger]
            asks(r, effect) && served(
                *arith,
                *level_of,
                *write,
                old(state).persistent,
                old(state).vectors.names(),
                old(state).vectors@,
                words(argv@),
                effect,
                final(state).vectors@,
            ),
{
    let ghost m = state.vectors@;
    let ghost w = words(argv@);
    let command = match Command::find(argv[0].as_slice()) {
        Some(c) => c,
        None => {
            let r = Outcome::Reply(resp::error("ERR unknown command"));
            assert(asks(r, refused("ERR unknown command"@)));
            return r;
        },
    };
    if !command.arity().accepts(argv.len()) {
        let r = Outcome::Reply(wrong_args(command.as_str()));
        assert(asks(r, refused(wrong_count(command.name()))));
        return r;
    }
    let args: &[Vec<u8>] = &argv[1..argv.len()];
    assert(words(args@) =~= w.drop_first());
    match command {
        Command::Vadd => {
            assert(args@[0] == argv@[1]);
            vadd::vadd(args, state, arith, level_of)
        },
        Command::Vdel => vdel::vdel(args, state),
        Command::Vinfo => {
            let r = Outcome::Reply(vinfo::vinfo(args, &state.vectors));
            assert(asks(r, Effect::Reply(vinfo::answer(m, words(args@)))));
            r
        },
        Command::Vnew => vnew::vnew(args, state),
        Command::Vsave => vsave::vsave(state),
        Command::Vsearch => {
            let v = vsearch::run(args, &state.vectors, arith, write);
            let r = Outcome::Reply(v);
            proof {
                let reply = choose|reply: Reply| #[trigger]
                    says(v, reply) && vsearch::answered(*arith, *write, m, words(args@), reply);
                assert(asks(r, Effect::Reply(reply)));
            }
            r
        },
    }
}

/// The mutations that are appended to the log for a request: one or none.
pub open spec fn logged(effect: Effect) -> Seq<Mutation> {
    match effect {
        Effect::Logged(op, _) => seq![op],
        _ => seq![],
    }
}

/// Whether a request asks for an index of a dimension that the log cannot hold.
pub open spec fn unloggable(argv: Seq<Seq<u8>>) -> bool {
    &&& Command::named(argv[0]) == Some(Command::Vnew)
    &&& argv.len() >= 3
    &&& vnew::asked(argv.drop_first()) matches Ok((dim, _)) && dim >= codec::RANGE
}

/// The log keeps up with the registry: what a request appends to it is what the
/// request did, and a request that appends nothing did nothing. So if the
/// mutations in the log lead from `base` to what the registry held before a
/// request, then those in the log afterwards lead to what it holds afterwards;
/// and if each of them had something to do, so has the one that is appended.
pub proof fn law_log_keeps_up_with_the_registry<
    A: Fn(Operation<'_>) -> Float,
    L: Fn(u64, u64, usize) -> u8,
    T: Fn(Float) -> Vec<u8>,
>(
    arith: A,
    level_of: L,
    write: T,
    names: Seq<Seq<u8>>,
    base: Map<Seq<u8>, Memory>,
    ops: Seq<Mutation>,
    m: Map<Seq<u8>, Memory>,
    argv: Seq<Seq<u8>>,
    effect: Effect,
    after: Map<Seq<u8>, Memory>,
)
    requires
        float::deterministic(arith),
        sound(base),
        sound(after),
        ops_applied(arith, level_of, base, ops, m),
        served(arith, level_of, write, true, names, m, argv, effect, after),
        !unloggable(argv),
    ensures
        ops_applied(arith, level_of, base, ops + logged(effect), after),
        all_effective(arith, contents(base), ops) ==> all_effective(
            arith,
            contents(base),
            ops + logged(effect),
        ),
{
    law_mutations_have_one_effect(arith, level_of, base, ops, m);
    let args = argv.drop_first();
    match effect {
        Effect::Logged(op, reply) => {
            assert(op_applied(arith, level_of, m, op, after) && effective(contents(m), op)) by {
                match Command::named(argv[0])->0 {
                    Command::Vadd => {
                        let name = args[0];
                        assert(fitting(args[2], m[name].dim) is Some);
                        let memory = choose|memory: Memory| #[trigger]
                            index::added(
                                arith,
                                level_of,
                                m[name],
                                memory,
                                args[1],
                                fitting(args[2], m[name].dim)->0,
                            ) && after == m.insert(name, memory);
                        assert(op == Mutation::Add { name, key: args[1], vec: args[2] });
                    },
                    Command::Vnew => {
                        let (dim, metric) = vnew::asked(args)->Ok_0;
                        metric::law_metric_tags_round_trip(metric, metric.tag());
                        assert(op == vnew::creation(args[0], dim, metric));
                    },
                    Command::Vdel => {
                        assert(op == Mutation::Del { name: args[0], key: args[1] });
                    },
                    _ => {},
                }
            }
            lemma_ops_push(arith, level_of, base, ops, m, op, after);
            assert(ops + logged(effect) =~= ops.push(op));
            if all_effective(arith, contents(base), ops) {
                let more = ops.push(op);
                assert forall|i: int| 0 <= i < more.len() implies effective(
                    steps(arith, contents(base), more.take(i)),
                    #[trigger] more[i],
                ) by {
                    assert(more.take(i) =~= ops.take(i));
                    if i < ops.len() {
                        assert(effective(steps(arith, contents(base), ops.take(i)), ops[i]));
                    } else {
                        assert(ops.take(i) =~= ops);
                    }
                }
            }
        },
        _ => {
            assert(ops + logged(effect) =~= ops);
            assert(after == m);
        },
    }
}

} // verus!
