//! Every named vector index on the server.

use vstd::prelude::*;

use crate::bytemap::ByteMap;
use crate::vector::float::Float;
use crate::vector::index::{Index, Memory};
use crate::vector::metric::Metric;

verus! {

/// What an index holds as its clients see it.
#[verifier::ext_equal]
pub struct Contents {
    /// The dimension of every vector.
    pub dim: nat,
    /// How distances are measured.
    pub metric: Metric,
    /// The live keys with their vectors, as stored.
    pub entries: Map<Seq<u8>, Seq<Float>>,
}

impl Memory {
    /// What the index holds as its clients see it.
    pub open spec fn contents(self) -> Contents {
        Contents { dim: self.dim, metric: self.metric, entries: self.entries() }
    }
}

/// What every index holds as its clients see it.
pub open spec fn contents(m: Map<Seq<u8>, Memory>) -> Map<Seq<u8>, Contents> {
    m.map_values(|memory: Memory| memory.contents())
}

/// Every named vector index on the server.
pub struct VectorRegistry {
    indices: ByteMap<Index>,
}

impl VectorRegistry {
    /// What each index holds, by name.
    pub closed spec fn view(&self) -> Map<Seq<u8>, Memory> {
        memories(self.indices@)
    }

    /// The names, in ascending order.
    pub closed spec fn names(&self) -> Seq<Seq<u8>> {
        self.indices.keys()
    }

    /// Every index is in order.
    pub closed spec fn wf(&self) -> bool {
        &&& self.indices.wf()
        &&& forall|name: Seq<u8>| #[trigger]
            self.indices@.contains_key(name) ==> self.indices@[name].wf()
    }

    /// The names are those of the indices, each once, and what every index holds
    /// is in order.
    pub proof fn lemma_names(&self)
        requires
            self.wf(),
        ensures
            self.names().no_duplicates(),
            self.names().to_set() == self@.dom(),
            forall|name: Seq<u8>| #[trigger] self@.contains_key(name) ==> self@[name].wf(),
    {
        self.indices.lemma_entries();
        assert(self@.dom() =~= self.indices@.dom());
        assert forall|name: Seq<u8>| #[trigger] self@.contains_key(name) implies self@[name].wf() by {
            self.indices@[name].lemma_wf();
        }
    }

    /// Creates an empty registry.
    pub fn new() -> (r: VectorRegistry)
        ensures
            r.wf(),
            r@ == Map::<Seq<u8>, Memory>::empty(),
    {
        let r = VectorRegistry { indices: ByteMap::new() };
        assert(r@ =~= Map::empty());
        r
    }

    /// Creates a new index `name`. Returns `false` if one already exists.
    pub fn create(&mut self, name: Vec<u8>, dim: usize, metric: Metric) -> (r: bool)
        requires
            old(self).wf(),
        ensures
            final(self).wf(),
            r == !old(self)@.contains_key(name@),
            final(self)@ == if r {
                old(self)@.insert(name@, Memory::fresh(dim as nat, metric))
            } else {
                old(self)@
            },
    {
        if self.indices.get(name.as_slice()).is_some() {
            return false;
        }
        let ghost key = name@;
        self.indices.insert(name, Index::new(dim, metric));
        assert(self@ =~= old(self)@.insert(key, Memory::fresh(dim as nat, metric)));
        true
    }

    /// Borrows the index named `name`, if it exists.
    pub fn get(&self, name: &[u8]) -> (r: Option<&Index>)
        requires
            self.wf(),
        ensures
            r is Some <==> self@.contains_key(name@),
            r matches Some(index) ==> index.wf() && index@ == self@[name@],
    {
        self.indices.get(name)
    }

    /// Mutably borrows the index named `name`, if it exists. The registry is in
    /// order again once the index is.
    pub fn get_mut(&mut self, name: &[u8]) -> (r: Option<&mut Index>)
        requires
            old(self).wf(),
        ensures
            r is Some <==> old(self)@.contains_key(name@),
            match r {
                Some(index) => {
                    &&& index.wf()
                    &&& index@ == old(self)@[name@]
                    &&& final(index).wf() ==> final(self).wf()
                    &&& final(self)@ == old(self)@.insert(name@, final(index)@)
                },
                None => final(self).wf() && final(self)@ == old(self)@,
            },
    {
        proof {
            lemma_memories(self.indices@, name@);
        }
        self.indices.get_mut(name)
    }

    /// The name and the index of every index, for snapshotting.
    pub fn iter(&self) -> (r: Vec<(&Vec<u8>, &Index)>)
        requires
            self.wf(),
        ensures
            r@.len() == self.names().len(),
            forall|i: int|
                0 <= i < r@.len() ==> {
                    &&& (#[trigger] r@[i]).0@ == self.names()[i]
                    &&& r@[i].1.wf()
                    &&& r@[i].1@ == self@[self.names()[i]]
                },
    {
        proof {
            self.indices.lemma_entries();
        }
        let mut out: Vec<(&Vec<u8>, &Index)> = Vec::new();
        let n: usize = self.indices.len();
        let mut i: usize = 0;
        while i < n
            invariant
                self.wf(),
                i <= n,
                n == self.names().len(),
                forall|j: int|
                    0 <= j < n ==> self.indices@.contains_key(#[trigger] self.names()[j])
                        && self.indices@[self.names()[j]] == self.indices.values()[j],
                out@.len() == i,
                forall|j: int|
                    0 <= j < i ==> {
                        &&& (#[trigger] out@[j]).0@ == self.names()[j]
                        &&& out@[j].1.wf()
                        &&& out@[j].1@ == self@[self.names()[j]]
                    },
            decreases n - i,
        {
            let e = self.indices.entry(i);
            assert(self.indices@.contains_key(self.names()[i as int]));
            out.push(e);
            i += 1;
        }
        out
    }
}

/// What each of the indices holds.
spec fn memories(indices: Map<Seq<u8>, Index>) -> Map<Seq<u8>, Memory> {
    indices.map_values(|index: Index| index@)
}

/// Putting another index in the place of one changes what that name leads to.
proof fn lemma_memories(indices: Map<Seq<u8>, Index>, name: Seq<u8>)
    ensures
        forall|index: Index| #[trigger]
            memories(indices.insert(name, index)) == memories(indices).insert(name, index@),
{
    assert forall|index: Index| #[trigger] memories(indices.insert(name, index)) == memories(
        indices,
    ).insert(name, index@) by {
        assert(memories(indices.insert(name, index)) =~= memories(indices).insert(name, index@));
    }
}

} // verus!
