//! Flat state: the interface of a key-value store that keeps all historical
//! data without a tree-shaped commitment, and the overlay used while building
//! a block.

use vstd::prelude::*;

use crate::block::Identified;
use crate::chain::{ForkTree, Link};
use crate::memory::{
    read_ok, visible, FlatEntry, MemoryFlatState, MemoryForkTree, MemoryForkTreeQueryError,
};

verus! {

/// Flat state interface. Collaborators with their own storage (for example a
/// disk-backed database) implement this; [`MemoryFlatState`] is the verified
/// in-memory implementation, whose inherent methods carry the full contracts.
pub trait FlatState<FT: ForkTree> {
    /// Key type.
    type Key;

    /// Value type.
    type Value;

    /// Error type.
    type QueryError;

    /// Well-formedness of the store, which reads may rely on.
    spec fn wf(&self) -> bool;

    /// Get the value visible at a particular block.
    fn get(&self, key: &Self::Key, block_id: u64, fork_tree: &FT) -> (r: Result<
        Option<Self::Value>,
        Self::QueryError,
    >)
        requires
            self.wf(),
            fork_tree.wf(),
    ;
}

/// Mutable flat state.
pub trait FlatStateMut<FT: ForkTree>: FlatState<FT> {
    /// Apply error type.
    type ApplyError;

    /// Apply a changeset at a particular block.
    fn apply(
        &mut self,
        changeset: Vec<(Self::Key, Option<Self::Value>)>,
        block_id: u64,
        fork_tree: &FT,
    ) -> (r: Result<(), Self::ApplyError>)
        requires
            old(self).wf(),
            fork_tree.wf(),
        ensures
            final(self).wf(),
    ;
}

/// A flat state whose writes go through an external transaction, for
/// backends with their own write batches.
pub trait FlatStateTransactional<FT: ForkTree>: FlatState<FT> {
    /// Transaction type.
    type Transaction;

    /// Apply error type.
    type ApplyError;

    /// Record the application of a changeset in the transaction.
    fn apply(
        &self,
        transaction: &mut Self::Transaction,
        changeset: Vec<(Self::Key, Option<Self::Value>)>,
        block_id: u64,
        fork_tree: &FT,
    ) -> (r: Result<(), Self::ApplyError>)
        requires
            self.wf(),
            fork_tree.wf(),
    ;
}

/// The buffered writes of an overlay, as a map: a key buffered several times
/// keeps its last value. `Some(None)` under a key is a buffered tombstone.
pub open spec fn changeset_map<V>(s: Seq<(u64, Option<V>)>) -> Map<u64, Option<V>>
    decreases s.len(),
{
    if s.len() == 0 {
        Map::empty()
    } else {
        changeset_map(s.drop_last()).insert(s.last().0, s.last().1)
    }
}

/// No key occurs twice among buffered writes.
pub open spec fn distinct_keys<V>(s: Seq<(u64, Option<V>)>) -> bool {
    forall|i: int, j: int| 0 <= i < j < s.len() ==> (#[trigger] s[i]).0 != (#[trigger] s[j]).0
}

/// The value an overlay shows for a key: its own buffered write if there is
/// one, else the value visible in the underlying flat state at the bound
/// block.
pub open spec fn overlay_visible<V>(
    cs: Seq<(u64, Option<V>)>,
    base: Map<u64, Seq<FlatEntry<V>>>,
    lm: Map<u64, Link>,
    key: u64,
    b: u64,
) -> Option<V> {
    let cm = changeset_map(cs);
    if cm.dom().contains(key) {
        cm[key]
    } else {
        visible(base, lm, key, b)
    }
}

/// A speculative, fork-aware buffer for building the changeset of one new
/// block. Reads fall through to the underlying flat state at the bound
/// parent block; writes stay local until the buffer is drained into a
/// changeset and applied. Each overlay owns its buffer exclusively, so no
/// overlay ever sees another's uncommitted writes.
pub struct OverlayedFlatState<'fs, 'ft, B: Identified, V> {
    flat_state: &'fs MemoryFlatState<V>,
    fork_tree: &'ft MemoryForkTree<B>,
    block_id: u64,
    changeset: Vec<(u64, Option<V>)>,
}

impl<'fs, 'ft, B: Identified, V> OverlayedFlatState<'fs, 'ft, B, V> {
    /// The underlying flat state.
    pub closed spec fn base(&self) -> MemoryFlatState<V> {
        *self.flat_state
    }

    /// The fork tree ancestry is resolved through.
    pub closed spec fn tree(&self) -> MemoryForkTree<B> {
        *self.fork_tree
    }

    /// The block the overlay reads at, usually the parent of the block being
    /// built.
    pub closed spec fn block_id_spec(&self) -> u64 {
        self.block_id
    }

    /// The buffered writes, in buffer order.
    pub closed spec fn buffered(&self) -> Seq<(u64, Option<V>)> {
        self.changeset@
    }

    /// Well-formedness: the underlying structures are well formed and the
    /// buffer holds each key at most once.
    pub open spec fn wf(&self) -> bool {
        &&& self.base().wf()
        &&& self.tree().wf()
        &&& distinct_keys(self.buffered())
    }

    /// Get the value the overlay shows for `key`: the locally buffered value
    /// if present, tombstones included, else the value the underlying flat
    /// state shows at the bound block.
    pub fn get(&self, key: u64) -> (r: Result<Option<&V>, MemoryForkTreeQueryError>)
        requires
            self.wf(),
        ensures
            ({
                let cm = changeset_map(self.buffered());
                let lm = self.tree().lm();
                let b = self.block_id_spec();
                if cm.dom().contains(key) {
                    match r {
                        Ok(v) => match v {
                            Some(x) => cm[key] == Some(*x),
                            None => cm[key] is None,
                        },
                        Err(_) => false,
                    }
                } else {
                    match r {
                        Ok(v) => lm.dom().contains(b) && (read_ok(
                            self.base()@,
                            lm,
                            key,
                            lm[b].depth,
                        ) ==> match v {
                            Some(x) => visible(self.base()@, lm, key, b) == Some(*x),
                            None => visible(self.base()@, lm, key, b) is None,
                        }),
                        Err(MemoryForkTreeQueryError::UnknownBlock) => !lm.dom().contains(b)
                            || !read_ok(self.base()@, lm, key, lm[b].depth),
                        Err(MemoryForkTreeQueryError::InvalidAncestorDepth) => lm.dom().contains(b)
                            && !read_ok(self.base()@, lm, key, lm[b].depth),
                    }
                }
            }),
    {
        let ghost s = self.changeset@;
        let mut i: usize = 0;
        while i < self.changeset.len()
            invariant
                s == self.changeset@,
                i <= s.len(),
                distinct_keys(s),
                forall|j: int| 0 <= j < i ==> (#[trigger] s[j]).0 != key,
            decreases self.changeset.len() - i,
        {
            if self.changeset[i].0 == key {
                proof {
                    lemma_changeset_map_found(s, i as int, key);
                }
                return Ok(self.changeset[i].1.as_ref());
            }
            i += 1;
        }
        proof {
            lemma_changeset_map_absent(s, key);
        }
        self.flat_state.get(key, self.block_id, self.fork_tree)
    }

    /// Buffer a value for `key`, replacing any earlier buffered write.
    pub fn insert(&mut self, key: u64, value: V)
        requires
            old(self).wf(),
        ensures
            final(self).wf(),
            final(self).base() == old(self).base(),
            final(self).tree() == old(self).tree(),
            final(self).block_id_spec() == old(self).block_id_spec(),
            changeset_map(final(self).buffered()) == changeset_map(old(self).buffered()).insert(
                key,
                Some(value),
            ),
    {
        self.record(key, Some(value));
    }

    /// Buffer a tombstone for `key`, replacing any earlier buffered write:
    /// the key will read as deleted, and committing records the deletion.
    pub fn remove(&mut self, key: u64)
        requires
            old(self).wf(),
        ensures
            final(self).wf(),
            final(self).base() == old(self).base(),
            final(self).tree() == old(self).tree(),
            final(self).block_id_spec() == old(self).block_id_spec(),
            changeset_map(final(self).buffered()) == changeset_map(old(self).buffered()).insert(
                key,
                None,
            ),
    {
        self.record(key, None);
    }

    /// Buffer a write, replacing any earlier one for the same key.
    #[verifier::loop_isolation(false)]
    fn record(&mut self, key: u64, value: Option<V>)
        requires
            old(self).wf(),
        ensures
            final(self).wf(),
            final(self).base() == old(self).base(),
            final(self).tree() == old(self).tree(),
            final(self).block_id_spec() == old(self).block_id_spec(),
            changeset_map(final(self).buffered()) == changeset_map(old(self).buffered()).insert(
                key,
                value,
            ),
    {
        let ghost s = self.changeset@;
        let ghost vg = value;
        let mut i: usize = 0;
        while i < self.changeset.len()
            invariant
                s == self.changeset@,
                self.flat_state == old(self).flat_state,
                self.fork_tree == old(self).fork_tree,
                self.block_id == old(self).block_id,
                i <= s.len(),
                distinct_keys(s),
                forall|j: int| 0 <= j < i ==> (#[trigger] s[j]).0 != key,
            decreases self.changeset.len() - i,
        {
            if self.changeset[i].0 == key {
                self.changeset.set(i, (key, value));
                proof {
                    lemma_changeset_map_update(s, i as int, key, vg);
                    assert(distinct_keys(self.changeset@)) by {
                        assert forall|a: int, b2: int|
                            0 <= a < b2 < self.changeset@.len() implies (#[trigger] self.changeset@[a]).0
                            != (#[trigger] self.changeset@[b2]).0 by {
                            if a != i && b2 != i {
                                assert(self.changeset@[a] == s[a]);
                                assert(self.changeset@[b2] == s[b2]);
                            }
                        }
                    }
                }
                return ;
            }
            i += 1;
        }
        proof {
            lemma_changeset_map_absent(s, key);
        }
        self.changeset.push((key, value));
        proof {
            assert(self.changeset@.drop_last() =~= s);
            assert(changeset_map(self.changeset@) == changeset_map(s).insert(key, vg));
            assert forall|a: int, b2: int|
                0 <= a < b2 < self.changeset@.len() implies (#[trigger] self.changeset@[a]).0
                != (#[trigger] self.changeset@[b2]).0 by {
                if b2 == s.len() {
                    assert(self.changeset@[a] == s[a]);
                } else {
                    assert(self.changeset@[a] == s[a]);
                    assert(self.changeset@[b2] == s[b2]);
                }
            }
        }
    }

    /// Drain the overlay into the changeset it buffered, ready to be applied
    /// to a flat state once the new block's identifier is known.
    pub fn into_changeset(self) -> (r: Vec<(u64, Option<V>)>)
        ensures
            r@ == self.buffered(),
    {
        let OverlayedFlatState { changeset, .. } = self;
        changeset
    }
}

impl<V> MemoryFlatState<V> {
    /// Open a speculative overlay over this flat state, reading at
    /// `block_id` through `fork_tree`, with an empty buffer.
    pub fn overlayed<'fs, 'ft, B: Identified>(
        &'fs self,
        block_id: u64,
        fork_tree: &'ft MemoryForkTree<B>,
    ) -> (o: OverlayedFlatState<'fs, 'ft, B, V>)
        ensures
            o.base() == *self,
            o.tree() == *fork_tree,
            o.block_id_spec() == block_id,
            o.buffered() == Seq::<(u64, Option<V>)>::empty(),
    {
        OverlayedFlatState { flat_state: self, fork_tree, block_id, changeset: Vec::new() }
    }
}

/// A buffered pair at index `i` of a buffer without repeated keys is the
/// buffer map's value for its key.
proof fn lemma_changeset_map_found<V>(s: Seq<(u64, Option<V>)>, i: int, key: u64)
    requires
        distinct_keys(s),
        0 <= i < s.len(),
        s[i].0 == key,
    ensures
        changeset_map(s).dom().contains(key),
        changeset_map(s)[key] == s[i].1,
    decreases s.len(),
{
    if i == s.len() - 1 {
    } else {
        assert(s.drop_last()[i] == s[i]);
        assert forall|a: int, b: int| 0 <= a < b < s.drop_last().len() implies (#[trigger] s.drop_last()[a]).0
            != (#[trigger] s.drop_last()[b]).0 by {
            assert(s.drop_last()[a] == s[a]);
            assert(s.drop_last()[b] == s[b]);
        }
        lemma_changeset_map_found(s.drop_last(), i, key);
        assert(s.last().0 != key);
    }
}

/// A key no buffered pair names is absent from the buffer map.
proof fn lemma_changeset_map_absent<V>(s: Seq<(u64, Option<V>)>, key: u64)
    requires
        forall|j: int| 0 <= j < s.len() ==> (#[trigger] s[j]).0 != key,
    ensures
        !changeset_map(s).dom().contains(key),
    decreases s.len(),
{
    if s.len() > 0 {
        assert forall|j: int| 0 <= j < s.drop_last().len() implies (#[trigger] s.drop_last()[j]).0
            != key by {
            assert(s.drop_last()[j] == s[j]);
        }
        lemma_changeset_map_absent(s.drop_last(), key);
    }
}

/// Rewriting the one buffered pair for a key updates the buffer map at that
/// key alone.
proof fn lemma_changeset_map_update<V>(s: Seq<(u64, Option<V>)>, i: int, key: u64, value: Option<V>)
    requires
        distinct_keys(s),
        0 <= i < s.len(),
        s[i].0 == key,
    ensures
        changeset_map(s.update(i, (key, value))) == changeset_map(s).insert(key, value),
    decreases s.len(),
{
    let s2 = s.update(i, (key, value));
    if i == s.len() - 1 {
        assert(s2.drop_last() =~= s.drop_last());
        assert(s2.last() == (key, value));
        assert(changeset_map(s2) == changeset_map(s.drop_last()).insert(key, value));
        assert(changeset_map(s).insert(key, value) =~= changeset_map(s.drop_last()).insert(
            key,
            value,
        ));
    } else {
        assert(s.drop_last()[i] == s[i]);
        assert forall|a: int, b: int| 0 <= a < b < s.drop_last().len() implies (#[trigger] s.drop_last()[a]).0
            != (#[trigger] s.drop_last()[b]).0 by {
            assert(s.drop_last()[a] == s[a]);
            assert(s.drop_last()[b] == s[b]);
        }
        lemma_changeset_map_update(s.drop_last(), i, key, value);
        assert(s2.drop_last() =~= s.drop_last().update(i, (key, value)));
        assert(s2.last() == s.last());
        assert(s.last().0 != key);
        assert(changeset_map(s2) == changeset_map(s.drop_last().update(i, (key, value))).insert(
            s.last().0,
            s.last().1,
        ));
        assert(changeset_map(s).insert(key, value) =~= changeset_map(
            s.drop_last().update(i, (key, value)),
        ).insert(s.last().0, s.last().1));
    }
}

/// Overlay isolation: overlays over one flat state own their buffers
/// exclusively. A write buffered in one overlay changes what that overlay
/// shows for the key, and leaves every overlay without its own buffered
/// write for the key showing exactly the underlying state's value.
pub proof fn lemma_overlay_isolation<V>(
    cs1: Seq<(u64, Option<V>)>,
    cs2: Seq<(u64, Option<V>)>,
    base: Map<u64, Seq<FlatEntry<V>>>,
    lm: Map<u64, Link>,
    key: u64,
    b: u64,
)
    requires
        changeset_map(cs1).dom().contains(key),
        !changeset_map(cs2).dom().contains(key),
    ensures
        overlay_visible(cs1, base, lm, key, b) == changeset_map(cs1)[key],
        overlay_visible(cs2, base, lm, key, b) == visible(base, lm, key, b),
{
}

} // verus!
