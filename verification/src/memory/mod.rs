//! Memory-only implementations.

pub(crate) mod chain;
pub(crate) mod state;

pub use self::chain::{
    ft_links, FtNode, MemoryForkTree, MemoryForkTreeInsertError, MemoryForkTreeQueryError,
};
pub use self::state::{
    apply_changeset, entries_consistent, entries_wf, lemma_apply_get_round_trip,
    lemma_consistent_after_growth, lemma_consistent_read_ok, lemma_deepest_visible_write,
    lemma_fork_write_invisible, lemma_lookup_after_upsert, lookup, read_ok, state_consistent,
    upsert, visible, writers_known, writers_ok, FlatEntry, MemoryFlatState,
};

use vstd::prelude::*;

use crate::block::Identified;

verus! {

/// A state that can produce an independent replica of itself: the replica
/// has the same abstract value, and keeps the implementation invariant. The
/// memory structures of this crate implement it, and so must anything placed
/// under a [`MemoryTransactional`].
pub trait Replicable: View + Sized {
    /// The implementation invariant that replication keeps.
    spec fn inv(&self) -> bool;

    /// Produce an independent replica with the same abstract value.
    fn replicate(&self) -> (r: Self)
        ensures
            r@ == self@,
            self.inv() ==> r.inv(),
    ;
}

/// The composite state of a simple chain: a fork tree and a flat state,
/// replicated and restored together.
pub struct ChainData<B: Identified + Clone, Val: Clone> {
    /// All known blocks and their ancestry.
    pub fork_tree: MemoryForkTree<B>,
    /// The versioned key-value state.
    pub state: MemoryFlatState<Val>,
}

impl<B: Identified + Clone, Val: Clone> View for ChainData<B, Val> {
    type V = (Map<u64, FtNode<B>>, Map<u64, Seq<FlatEntry<Val>>>);

    open spec fn view(&self) -> (Map<u64, FtNode<B>>, Map<u64, Seq<FlatEntry<Val>>>) {
        (self.fork_tree@, self.state@)
    }
}

impl<B: Identified + Clone, Val: Clone> Replicable for ChainData<B, Val> {
    open spec fn inv(&self) -> bool {
        self.fork_tree.wf() && self.state.wf()
    }

    fn replicate(&self) -> (r: Self) {
        ChainData { fork_tree: self.fork_tree.replicate(), state: self.state.replicate() }
    }
}

/// A memory transactional: all-or-nothing application of operations to
/// memory-only state.
///
/// Two full replicas of the state are kept. An operation runs against the
/// first replica; on success it runs against the second as well, and a
/// failure there is repaired by copying the first replica over it. On
/// failure against the first replica, the first is restored from the second,
/// so the exposed state is left as it was before the call. Only the first
/// replica is ever exposed to readers.
pub struct MemoryTransactional<Inner> {
    first: Inner,
    second: Inner,
}

impl<Inner: Replicable> MemoryTransactional<Inner> {
    /// The exposed replica.
    pub closed spec fn first_spec(&self) -> Inner {
        self.first
    }

    /// The recovery replica.
    pub closed spec fn second_spec(&self) -> Inner {
        self.second
    }

    /// Both replicas hold the same abstract state. `new` establishes this,
    /// and it persists as long as the applied operations behave as pure
    /// functions of the state.
    pub open spec fn synced(&self) -> bool {
        self.first_spec()@ == self.second_spec()@
    }

    /// Create a new memory transactional holding `inner`.
    pub fn new(inner: Inner) -> (s: Self)
        ensures
            s.first_spec() == inner,
            s.synced(),
            inner.inv() ==> s.second_spec().inv(),
    {
        let second = inner.replicate();
        MemoryTransactional { first: inner, second }
    }

    /// Read access to the exposed state.
    pub fn current(&self) -> (r: &Inner)
        ensures
            *r == self.first_spec(),
    {
        &self.first
    }

    /// Apply an operation to the state, all-or-nothing.
    ///
    /// On `Ok`, the exposed state is the operation's result on it, and the
    /// recovery replica holds either the operation's result on it or a
    /// replica of the exposed state. On `Err`, the operation's partial
    /// effects on the exposed state are undone by restoring it from the
    /// recovery replica, which a preceding `synced` state makes an exact
    /// restoration.
    pub fn apply<R, E, F: Fn(&mut Inner) -> Result<R, E>>(&mut self, f: F) -> (r: Result<R, E>)
        requires
            forall|v: &mut Inner| #[trigger] call_requires(f, (v,)),
        ensures
            exists|v: &mut Inner|
                {
                    &&& #[trigger] call_ensures(f, (v,), r)
                    &&& mut_ref_current(v) == old(self).first_spec()
                    &&& (r is Ok ==> mut_ref_future(v) == final(self).first_spec())
                },
            r is Err ==> {
                &&& final(self).second_spec() == old(self).second_spec()
                &&& final(self).first_spec()@ == old(self).second_spec()@
                &&& (old(self).second_spec().inv() ==> final(self).first_spec().inv())
                &&& final(self).synced()
                &&& (old(self).synced()
                    ==> final(self).first_spec()@ == old(self).first_spec()@)
            },
            r is Ok ==> {
                ||| (final(self).synced()
                    && (final(self).first_spec().inv() ==> final(self).second_spec().inv()))
                ||| exists|v: &mut Inner, r2: Result<R, E>|
                    {
                        &&& #[trigger] call_ensures(f, (v,), r2)
                        &&& r2 is Ok
                        &&& mut_ref_current(v) == old(self).second_spec()
                        &&& mut_ref_future(v) == final(self).second_spec()
                    }
            },
    {
        let r1 = call_on(&mut self.first, &f);
        match &r1 {
            Ok(_) => {
                let r2 = call_on(&mut self.second, &f);
                match &r2 {
                    Ok(_) => {},
                    Err(_) => {
                        self.second = self.first.replicate();
                    },
                }
            },
            Err(_) => {
                self.first = self.second.replicate();
            },
        }
        r1
    }
}

/// Run the operation against one replica, handing back the relation between
/// the replica's old and new value that the operation ensures.
fn call_on<Inner, R, E, F: Fn(&mut Inner) -> Result<R, E>>(x: &mut Inner, f: &F) -> (r: Result<
    R,
    E,
>)
    requires
        forall|v: &mut Inner| #[trigger] call_requires(*f, (v,)),
    ensures
        exists|v: &mut Inner|
            {
                &&& #[trigger] call_ensures(*f, (v,), r)
                &&& mut_ref_current(v) == *old(x)
                &&& mut_ref_future(v) == *final(x)
            },
{
    f(x)
}

} // verus!
