//! Associative vector memory: named indices of dense vectors with
//! nearest-neighbour search.
//!
//! The [`VectorRegistry`] owns every named [`Index`] and lives in the shared
//! server state. Vectors travel on the wire as packed little-endian numbers; [`decode`] and
//! [`encode`] are the boundary between those bytes and the vectors that the
//! indices work on.

pub mod float;
pub mod graph;
pub mod hnsw;
pub mod index;
pub mod metric;
pub mod registry;
pub mod reproducible;
pub mod rng;
pub mod store;

pub use index::{Index, Neighbor};
pub use metric::Metric;
pub use registry::VectorRegistry;

use vstd::prelude::*;

use crate::codec;
use crate::vector::float::Float;

verus! {

/// A vector as packed little-endian numbers.
pub open spec fn packed(v: Seq<Float>) -> Seq<u8> {
    Seq::new(4 * v.len(), |i: int| codec::le32(v[i / 4].bits)[i % 4])
}

/// The numbers that packed bytes hold.
pub open spec fn numbers(bytes: Seq<u8>) -> Seq<Float> {
    Seq::new(bytes.len() / 4, |i: int| Float { bits: codec::number(bytes, 4 * i) })
}

/// Whether every component is a finite number.
pub open spec fn all_finite(v: Seq<Float>) -> bool {
    forall|i: int| 0 <= i < v.len() ==> (#[trigger] v[i]).finite()
}

/// The vector that packed bytes hold: none if they are not a positive multiple
/// of four or any component is not finite.
pub open spec fn unpacked(bytes: Seq<u8>) -> Option<Seq<Float>> {
    if bytes.len() > 0 && bytes.len() % 4 == 0 && all_finite(numbers(bytes)) {
        Some(numbers(bytes))
    } else {
        None
    }
}

/// Decodes a packed little-endian vector. Returns `None` if the byte length is
/// not a positive multiple of four or any component is not finite.
pub fn decode(bytes: &[u8]) -> (r: Option<Vec<Float>>)
    ensures
        match r {
            Some(v) => unpacked(bytes@) == Some(v@),
            None => unpacked(bytes@) is None,
        },
{
    if bytes.len() == 0 || bytes.len() % 4 != 0 {
        return None;
    }
    let mut v: Vec<Float> = Vec::new();
    let mut i: usize = 0;
    while i < bytes.len() / 4
        invariant
            i <= bytes.len() / 4,
            bytes@.len() % 4 == 0,
            v@ == numbers(bytes@).take(i as int),
            all_finite(v@),
        decreases bytes.len() / 4 - i,
    {
        let f = match codec::get_u32(bytes, 4 * i) {
            Some(bits) => Float { bits },
            None => return None,
        };
        assert(f == numbers(bytes@)[i as int]);
        if !f.is_finite() {
            return None;
        }
        v.push(f);
        i += 1;
        assert(v@ =~= numbers(bytes@).take(i as int));
    }
    assert(v@ =~= numbers(bytes@));
    Some(v)
}

/// Encodes a vector as packed little-endian numbers. The inverse of [`decode`];
/// used on the snapshot write path.
pub fn encode(v: &[Float]) -> (out: Vec<u8>)
    ensures
        out@ == packed(v@),
{
    let mut out: Vec<u8> = Vec::new();
    let mut i: usize = 0;
    while i < v.len()
        invariant
            i <= v.len(),
            out@ == packed(v@.take(i as int)),
        decreases v.len() - i,
    {
        let ghost before = out@;
        codec::put_u32(&mut out, v[i].bits);
        proof {
            let part = v@.take(i + 1);
            assert forall|k: int| 0 <= k < out@.len() implies out@[k] == packed(part)[k] by {
                if k < before.len() {
                    assert(before[k] == packed(v@.take(i as int))[k]);
                    assert(part[k / 4] == v@.take(i as int)[k / 4]);
                } else {
                    assert(k / 4 == i && k % 4 == k - before.len());
                    assert(part[k / 4] == v@[i as int]);
                }
            }
            assert(out@ =~= packed(part));
        }
        i += 1;
    }
    assert(v@.take(i as int) =~= v@);
    out
}

/// A vector of finite numbers, if it has any, reads back as it was written.
pub proof fn law_vectors_round_trip(v: Seq<Float>)
    requires
        v.len() > 0,
        all_finite(v),
    ensures
        unpacked(packed(v)) == Some(v),
{
    let bytes = packed(v);
    assert forall|i: int| 0 <= i < v.len() implies numbers(bytes)[i] == v[i] by {
        lemma_component(v, i);
        codec::lemma_number_from_bytes(bytes, 4 * i, v[i].bits);
    }
    assert(numbers(bytes) =~= v);
}

/// The bytes of a component of a packed vector.
proof fn lemma_component(v: Seq<Float>, i: int)
    requires
        0 <= i < v.len(),
    ensures
        packed(v)[4 * i] == codec::le32(v[i].bits)[0],
        packed(v)[4 * i + 1] == codec::le32(v[i].bits)[1],
        packed(v)[4 * i + 2] == codec::le32(v[i].bits)[2],
        packed(v)[4 * i + 3] == codec::le32(v[i].bits)[3],
{
    assert(4 * i / 4 == i && 4 * i % 4 == 0);
    assert((4 * i + 1) / 4 == i && (4 * i + 1) % 4 == 1);
    assert((4 * i + 2) / 4 == i && (4 * i + 2) % 4 == 2);
    assert((4 * i + 3) / 4 == i && (4 * i + 3) % 4 == 3);
}

/// A vector that was read is written as it was read.
pub proof fn law_vector_is_written_as_read(bytes: Seq<u8>)
    requires
        unpacked(bytes) is Some,
    ensures
        packed(unpacked(bytes)->0) == bytes,
{
    let v = unpacked(bytes)->0;
    assert forall|k: int| 0 <= k < bytes.len() implies packed(v)[k] == bytes[k] by {
        let i = k / 4;
        codec::lemma_number_bytes(bytes, 4 * i, k % 4);
    }
    assert(packed(v) =~= bytes);
}

/// Bytes are read as a vector only if they hold four for each of its numbers, there
/// is at least one, and every one of them is finite.
pub proof fn law_only_finite_vectors_are_read(bytes: Seq<u8>, v: Seq<Float>)
    requires
        unpacked(bytes) == Some(v),
    ensures
        v.len() > 0,
        bytes.len() == 4 * v.len(),
        forall|i: int|
            0 <= i < v.len() ==> (#[trigger] v[i]).bits & 0x7F80_0000 != 0x7F80_0000,
        forall|i: int|
            0 <= i < v.len() ==> (#[trigger] v[i]).bits == bytes[4 * i] + 256 * bytes[4 * i + 1]
                + 65536 * bytes[4 * i + 2] + 16777216 * bytes[4 * i + 3],
{
    assert forall|i: int| 0 <= i < v.len() implies (#[trigger] v[i]).bits & 0x7F80_0000
        != 0x7F80_0000 by {
        assert(v[i].finite());
        crate::vector::float::law_exponent_tells_what_is_finite(v[i]);
    }
}

} // verus!
