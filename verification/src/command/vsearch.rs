//! `VSEARCH index query k [EF n]` returns the `k` nearest keys to `query`.
//!
//! `query` is packed little-endian numbers. The reply is a flat array of
//! `key, distance` pairs, closest first, with distances as strings. `EF` tunes the
//! graph search breadth; larger values trade speed for recall.
//!
//! The server runs this command on a worker thread, so its body is the free
//! function [`run`] taking a shared registry, which both the dispatcher and the
//! worker pool call.

use vstd::prelude::*;

use crate::codec;
use crate::command::wrong_count;
use crate::command::vadd::{dimension_error, wrong_dimension};
use crate::resp;
use crate::resp::{is_bulk, says, words, Reply, Value};
use crate::text;
use crate::vector;
use crate::vector::float;
use crate::vector::float::{Float, Operation};
use crate::vector::index;
use crate::vector::index::{Hit, Memory};
use crate::vector::registry::VectorRegistry;

verus! {

/// Default search breadth when the client does not pass `EF`.
pub const DEFAULT_EF: usize = 64;

/// The number of results and the breadth that the arguments ask for, or what is
/// wrong with them.
pub open spec fn asked(args: Seq<Seq<u8>>) -> Result<(usize, usize), Seq<char>> {
    if args.len() < 3 {
        Err(wrong_count("vsearch"@))
    } else {
        match text::usize_in(args[2]) {
            None => Err("ERR value is not an integer or out of range"@),
            Some(k) => if args.len() == 3 {
                Ok((k, DEFAULT_EF))
            } else if args.len() == 5 && text::spelled(args[3], "ef"@) {
                match text::usize_in(args[4]) {
                    None => Err("ERR value is not an integer or out of range"@),
                    Some(ef) => Ok((k, ef)),
                }
            } else {
                Err("ERR syntax error"@)
            },
        }
    }
}

/// What is wrong with the arguments, if anything.
pub open spec fn refusal(m: Map<Seq<u8>, Memory>, args: Seq<Seq<u8>>) -> Option<Seq<char>> {
    match asked(args) {
        Err(e) => Some(e),
        Ok(_) => if !m.contains_key(args[0]) {
            Some("ERR no such index"@)
        } else {
            match vector::unpacked(args[1]) {
                None => Some("ERR invalid vector encoding"@),
                Some(query) => if query.len() != m[args[0]].dim {
                    Some(wrong_dimension(m[args[0]].dim, query.len()))
                } else {
                    None
                },
            }
        },
    }
}

/// Whether `text` may write a number as `t`.
pub open spec fn gives_text<T: Fn(Float) -> Vec<u8>>(text: T, d: Float, t: Seq<u8>) -> bool {
    exists|v: Vec<u8>| #[trigger] call_ensures(text, (d,), v) && v@ == t
}

/// The keys and distances, pair by pair.
pub open spec fn flat(hits: Seq<Hit>, texts: Seq<Seq<u8>>) -> Seq<Seq<u8>> {
    Seq::new(
        2 * hits.len(),
        |i: int|
            if i % 2 == 0 {
                hits[i / 2].key
            } else {
                texts[i / 2]
            },
    )
}

/// Whether `bulks` lists the results of a search, with the distances written out.
pub open spec fn listed<T: Fn(Float) -> Vec<u8>>(
    text: T,
    hits: Seq<Hit>,
    texts: Seq<Seq<u8>>,
    bulks: Seq<Seq<u8>>,
) -> bool {
    &&& texts.len() == hits.len()
    &&& forall|i: int|
        0 <= i < hits.len() ==> gives_text(text, (#[trigger] hits[i]).distance, texts[i])
    &&& bulks == flat(hits, texts)
}

/// Whether `VSEARCH` may reply `reply`.
pub open spec fn answered<A: Fn(Operation<'_>) -> Float, T: Fn(Float) -> Vec<u8>>(
    arith: A,
    text: T,
    m: Map<Seq<u8>, Memory>,
    args: Seq<Seq<u8>>,
    reply: Reply,
) -> bool {
    match refusal(m, args) {
        Some(e) => reply == Reply::Error(e),
        None => {
            let (k, ef) = asked(args)->Ok_0;
            exists|hits: Seq<Hit>, texts: Seq<Seq<u8>>, bulks: Seq<Seq<u8>>|
                index::searched(
                    arith,
                    m[args[0]],
                    vector::unpacked(args[1])->0,
                    k as nat,
                    ef as nat,
                    hits,
                ) && #[trigger] listed(text, hits, texts, bulks) && reply == Reply::Bulks(bulks)
        },
    }
}

/// Whether `text` writes out every number.
pub open spec fn writes<T: Fn(Float) -> Vec<u8>>(text: T) -> bool {
    forall|d: Float| #[trigger] call_requires(text, (d,))
}

/// Reads what the arguments ask for.
fn read(args: &[Vec<u8>]) -> (r: Result<(usize, usize), &'static str>)
    ensures
        match r {
            Ok(x) => asked(words(args@)) == Ok::<(usize, usize), Seq<char>>(x),
            Err(e) => asked(words(args@)) == Err::<(usize, usize), Seq<char>>(e@),
        },
{
    if args.len() < 3 {
        proof {
            reveal_strlit("ERR wrong number of arguments for 'vsearch' command");
            reveal_strlit("ERR wrong number of arguments for '");
            reveal_strlit("vsearch");
            reveal_strlit("' command");
            assert("ERR wrong number of arguments for 'vsearch' command"@ =~= wrong_count("vsearch"@));
        }
        return Err("ERR wrong number of arguments for 'vsearch' command");
    }
    let k: usize = match text::parse_usize(args[2].as_slice()) {
        Some(k) => k,
        None => return Err("ERR value is not an integer or out of range"),
    };
    if args.len() == 3 {
        return Ok((k, DEFAULT_EF));
    }
    proof {
        reveal_strlit("ef");
    }
    if args.len() == 5 && text::spells(args[3].as_slice(), "ef") {
        match text::parse_usize(args[4].as_slice()) {
            Some(ef) => Ok((k, ef)),
            None => Err("ERR value is not an integer or out of range"),
        }
    } else {
        Err("ERR syntax error")
    }
}

/// Executes a search against `vectors`. `args` are the arguments after the name of
/// the command. Self-contained (it re-checks arity) because a search that runs on
/// a worker bypasses the dispatcher's arity check.
pub fn run<A: Fn(Operation<'_>) -> Float, T: Fn(Float) -> Vec<u8>>(
    args: &[Vec<u8>],
    vectors: &VectorRegistry,
    arith: &A,
    write: &T,
) -> (r: Value)
    requires
        vectors.wf(),
        float::computes(*arith),
        writes(*write),
    ensures
        exists|reply: Reply| #[trigger]
            says(r, reply) && answered(*arith, *write, vectors@, words(args@), reply),
{
    let ghost m = vectors@;
    let ghost w = words(args@);
    let (k, ef) = match read(args) {
        Ok(x) => x,
        Err(e) => {
            let r = resp::error(e);
            assert(says(r, Reply::Error(e@)));
            return r;
        },
    };
    let index = match vectors.get(args[0].as_slice()) {
        Some(index) => index,
        None => {
            let r = resp::error("ERR no such index");
            assert(says(r, Reply::Error("ERR no such index"@)));
            return r;
        },
    };
    let query = match vector::decode(args[1].as_slice()) {
        Some(query) => query,
        None => {
            let r = resp::error("ERR invalid vector encoding");
            assert(says(r, Reply::Error("ERR invalid vector encoding"@)));
            return r;
        },
    };
    if query.len() != index.dim() {
        let r = dimension_error(index.dim(), query.len());
        assert(says(r, Reply::Error(wrong_dimension(index@.dim, query@.len()))));
        return r;
    }
    let ghost q = query@;
    let neighbors = index.search(query, k, ef, arith);
    let ghost hits = index::hits(neighbors@);
    let mut out: Vec<Value> = Vec::new();
    let ghost mut texts: Seq<Seq<u8>> = seq![];
    let mut i: usize = 0;
    while i < neighbors.len()
        invariant
            writes(*write),
            i <= neighbors@.len(),
            hits == index::hits(neighbors@),
            texts.len() == i,
            out@.len() == 2 * i,
            forall|j: int|
                0 <= j < i ==> gives_text(*write, (#[trigger] hits[j]).distance, texts[j]),
            forall|j: int| 0 <= j < i ==> is_bulk(#[trigger] out@[2 * j], hits[j].key),
            forall|j: int| 0 <= j < i ==> is_bulk(#[trigger] out@[2 * j + 1], texts[j]),
        decreases neighbors@.len() - i,
    {
        let n = &neighbors[i];
        let t = write(n.distance);
        let ghost written = t@;
        assert(gives_text(*write, hits[i as int].distance, written));
        out.push(Value::Bulk(codec::copied(n.key.as_slice())));
        out.push(Value::Bulk(t));
        proof {
            texts = texts.push(written);
        }
        i += 1;
    }
    let r = Value::Array(out);
    proof {
        let bulks = flat(hits, texts);
        assert forall|j: int| 0 <= j < bulks.len() implies is_bulk(#[trigger] out@[j], bulks[j]) by {
            if j % 2 == 0 {
                assert(out@[2 * (j / 2)] == out@[j]);
                assert(is_bulk(out@[2 * (j / 2)], hits[j / 2].key));
            } else {
                assert(out@[2 * (j / 2) + 1] == out@[j]);
                assert(is_bulk(out@[2 * (j / 2) + 1], texts[j / 2]));
            }
        }
        assert(says(r, Reply::Bulks(bulks)));
        assert(listed(*write, hits, texts, bulks));
        assert(refusal(m, w) is None);
        assert(asked(w)->Ok_0 == (k, ef));
        assert(answered(*arith, *write, m, w, Reply::Bulks(bulks)));
    }
    r
}

} // verus!
