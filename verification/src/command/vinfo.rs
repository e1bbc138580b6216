//! `VINFO index` describes an index as a flat array of `field, value` pairs.

use vstd::prelude::*;
use vstd::utf8::encode_utf8;

use crate::resp;
use crate::resp::{is_bulk, says, words, Reply, Value};
use crate::text;
use crate::vector::index::Memory;
use crate::vector::registry::VectorRegistry;

verus! {

/// The fields of an index with their values.
pub open spec fn fields(memory: Memory) -> Seq<Seq<u8>> {
    seq![
        encode_utf8("dim"@),
        encode_utf8(text::decimal(memory.dim)),
        encode_utf8("metric"@),
        encode_utf8(memory.metric.name()),
        encode_utf8("count"@),
        encode_utf8(text::decimal(memory.entries().len())),
    ]
}

/// What `VINFO` replies.
pub open spec fn answer(m: Map<Seq<u8>, Memory>, args: Seq<Seq<u8>>) -> Reply {
    if m.contains_key(args[0]) {
        Reply::Bulks(fields(m[args[0]]))
    } else {
        Reply::Error("ERR no such index"@)
    }
}

/// A text as a byte string.
fn bulk(s: &str) -> (r: Value)
    ensures
        is_bulk(r, encode_utf8(s@)),
{
    Value::Bulk(text::bytes_of(s))
}

/// A number as a byte string.
fn number(n: usize) -> (r: Value)
    ensures
        is_bulk(r, encode_utf8(text::decimal(n as nat))),
{
    let mut s = String::new();
    text::push_decimal(&mut s, n as u64);
    assert(s@ =~= text::decimal(n as nat));
    bulk(s.as_str())
}

/// Serves `VINFO`. `args` are the arguments after the name of the command.
pub fn vinfo(args: &[Vec<u8>], vectors: &VectorRegistry) -> (r: Value)
    requires
        vectors.wf(),
        args@.len() >= 1,
    ensures
        says(r, answer(vectors@, words(args@))),
{
    let index = match vectors.get(args[0].as_slice()) {
        Some(index) => index,
        None => return resp::error("ERR no such index"),
    };
    let mut items: Vec<Value> = Vec::new();
    items.push(bulk("dim"));
    items.push(number(index.dim()));
    items.push(bulk("metric"));
    items.push(bulk(index.metric().as_str()));
    items.push(bulk("count"));
    items.push(number(index.len()));
    Value::Array(items)
}

} // verus!
