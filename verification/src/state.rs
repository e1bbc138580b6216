//! The server's shared state.

use vstd::prelude::*;

use crate::bytemap::ByteMap;
use crate::config::Config;
use crate::vector::index::Memory;
use crate::vector::registry::VectorRegistry;

verus! {

/// The key-value store.
pub type Store = ByteMap<Vec<u8>>;

/// The shared state commands read and modify.
pub struct State {
    /// The key-value store.
    pub store: Store,
    /// The named vector indices.
    pub vectors: VectorRegistry,
    /// Whether mutations are logged, which they are when a data directory is
    /// configured and could be opened.
    pub persistent: bool,
    /// The server configuration.
    pub config: Config,
}

impl State {
    /// The key-value store and the indices are in order.
    pub open spec fn wf(&self) -> bool {
        self.store.wf() && self.vectors.wf()
    }

    /// Everything but the indices is as it was `before`.
    pub open spec fn keeps(self, before: State) -> bool {
        &&& self.store == before.store
        &&& self.persistent == before.persistent
        &&& self.config == before.config
    }

    /// Creates state with the given configuration. `opened` is the registry
    /// recovered from the data directory, or none if that failed. Without a
    /// directory or without a registry from it the server runs in memory, with an
    /// empty one.
    pub fn new(config: Config, opened: Option<VectorRegistry>) -> (r: State)
        requires
            opened matches Some(vectors) ==> vectors.wf(),
        ensures
            r.wf(),
            r.config == config,
            r.store@ == Map::<Seq<u8>, Vec<u8>>::empty(),
            r.persistent == (config.dir is Some && opened is Some),
            match opened {
                Some(vectors) if config.dir is Some => r.vectors@ == vectors@,
                _ => r.vectors@ == Map::<Seq<u8>, Memory>::empty(),
            },
    {
        let store: Store = ByteMap::new();
        match opened {
            Some(vectors) if config.dir.is_some() => {
                State { store, vectors, persistent: true, config }
            },
            _ => State { store, vectors: VectorRegistry::new(), persistent: false, config },
        }
    }
}

/// The server keeps its settings and starts with an empty key-value store. It logs
/// mutations, and starts with the indices that were recovered, just if a data
/// directory is set and could be opened; else it starts without any.
pub proof fn law_server_starts_with_what_was_recovered(
    config: Config,
    opened: Option<VectorRegistry>,
    state: State,
)
    requires
        call_ensures(State::new, (config, opened), state),
    ensures
        state.config == config,
        state.store@.dom() == Set::<Seq<u8>>::empty(),
        state.persistent <==> config.dir is Some && opened is Some,
        state.persistent ==> state.vectors@ == opened->0@,
        !state.persistent ==> state.vectors@.dom() == Set::<Seq<u8>>::empty(),
{
    assert(state.store@.dom() =~= Set::empty());
    if !state.persistent {
        assert(state.vectors@.dom() =~= Set::empty());
    }
}

} // verus!
