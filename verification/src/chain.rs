//! Fork trees: the interface a chain exposes for ancestry queries, and the
//! mathematical model of ancestry that the contracts of this crate share.
//!
//! A fork tree tracks the blocks of every fork. It does not track the best
//! block: beyond storing a hash, best-block tracking mostly serves policy
//! (rebalancing, pruning, cache eviction) that belongs one layer up.

use vstd::prelude::*;

use crate::block::Identified;

verus! {

/// Fork tree interface. Collaborators that bring their own storage (for
/// example a disk-backed tree) implement this; [`crate::memory::MemoryForkTree`]
/// is the verified in-memory implementation, whose inherent methods carry the
/// full contracts.
pub trait ForkTree {
    /// The stored type. It can be a block or a header.
    type Block: Identified;

    /// Query error type.
    type QueryError;

    /// Well-formedness of the tree. Constructors establish it, every
    /// operation keeps it, and queries may rely on it.
    spec fn wf(&self) -> bool;

    /// Get a block by its id.
    fn block(&self, id: u64) -> (r: Result<&Self::Block, Self::QueryError>)
        requires
            self.wf(),
    ;

    /// Get a block depth by its id.
    fn block_depth(&self, id: u64) -> (r: Result<usize, Self::QueryError>)
        requires
            self.wf(),
    ;

    /// Find the ancestor of `id` at the given depth. If `ancestor_depth`
    /// equals the block's own depth, the block's own id is returned.
    fn ancestor_id_at_depth(&self, id: u64, ancestor_depth: usize) -> (r: Result<
        u64,
        Self::QueryError,
    >)
        requires
            self.wf(),
    ;

    /// Whether `ancestor_id` is an ancestor of `id`. At equal depth, a block
    /// is its own ancestor.
    fn is_ancestor(&self, id: u64, ancestor_id: u64) -> (r: Result<bool, Self::QueryError>)
        requires
            self.wf(),
    ;
}

/// A fork tree that accepts new blocks.
pub trait ForkTreeMut: ForkTree {
    /// Insert error type.
    type InsertError;

    /// Whether the tree accepts this block; at least, its identifier must be
    /// fresh, since identifiers are globally unique.
    spec fn may_insert(&self, block: &Self::Block) -> bool;

    /// Insert a new block.
    fn insert(&mut self, block: Self::Block) -> (r: Result<(), Self::InsertError>)
        requires
            old(self).wf(),
            old(self).may_insert(&block),
        ensures
            final(self).wf(),
    ;
}

/// A fork tree whose insertions go through an external transaction, for
/// backends with their own write batches.
pub trait ForkTreeTransactional: ForkTree {
    /// Transaction type.
    type Transaction;

    /// Insert error type.
    type InsertError;

    /// Record the insertion of a new block in the transaction.
    fn insert(&self, transaction: &mut Self::Transaction, block: Self::Block) -> (r: Result<
        (),
        Self::InsertError,
    >)
        requires
            self.wf(),
    ;
}

/// A chain that can import external, pre-validated blocks.
pub trait ImportBlock {
    /// Type of the block.
    type Block;

    /// Error type.
    type Error;

    /// Import a new block.
    fn import(&mut self, block: Self::Block) -> Result<(), Self::Error>;
}

/// Block builder: a chain-owned session that gathers extrinsics for one new
/// block on top of a chosen parent.
pub trait BlockBuilder<'chain>: Sized {
    /// Type of the chain.
    type Chain;

    /// Type of the block.
    type Block: Identified;

    /// Type of extrinsic.
    type Extrinsic;

    /// Type of error.
    type Error;

    /// Type of pre-log, the data known before the extrinsics.
    type PreLog;

    /// Type of post-log, the data sealing the block.
    type PostLog;

    /// Initialize a new block on top of the given parent.
    fn initialize(chain: &'chain Self::Chain, parent_id: u64, pre_log: Self::PreLog) -> Result<
        Self,
        Self::Error,
    >;

    /// Apply a new extrinsic.
    fn apply_extrinsic(&mut self, extrinsic: Self::Extrinsic) -> Result<(), Self::Error>;

    /// Finalize the current block.
    fn finalize(self, post_log: Self::PostLog) -> Result<Self::Block, Self::Error>;
}

/// The state a chain carries beside its fork tree and key-value state: the
/// consensus collaborator's own data. Consensus is pluggable — the core never
/// inspects it, since seal validation happens before a block reaches the
/// fork tree — so it is carried opaquely.
pub struct State<Consensus> {
    /// State of the consensus.
    pub consensus: Consensus,
}

/// The part of a stored block that ancestry reads: its parent link and its
/// depth. A fork tree's contracts speak of a `Map<u64, Link>` from block id to
/// link.
pub struct Link {
    /// Parent identifier; `None` for a root.
    pub parent: Option<u64>,
    /// Distance from the root; roots have depth 0.
    pub depth: nat,
}

/// One link is consistent: its parent is present one level up, or it is a
/// root at depth 0. Depths stay below the number of blocks, which keeps them
/// within machine range.
pub open spec fn link_ok(lm: Map<u64, Link>, id: u64) -> bool {
    &&& lm[id].depth < lm.dom().len()
    &&& match lm[id].parent {
        Some(p) => lm.dom().contains(p) && lm[p].depth + 1 == lm[id].depth,
        None => lm[id].depth == 0,
    }
}

/// A link map is well formed: finite, parent-closed and depth-consistent.
pub open spec fn link_wf(lm: Map<u64, Link>) -> bool {
    &&& lm.dom().finite()
    &&& forall|id: u64| #[trigger] lm.dom().contains(id) ==> link_ok(lm, id)
}

/// The unique ancestor of `id` at depth `d`, reached by following parent
/// links; `id` itself when `d` is its own depth.
pub open spec fn ancestor_at(lm: Map<u64, Link>, id: u64, d: nat) -> u64
    decreases lm[id].depth,
    when link_wf(lm) && lm.dom().contains(id) && d <= lm[id].depth
{
    if lm[id].depth == d {
        id
    } else {
        match lm[id].parent {
            Some(p) => ancestor_at(lm, p, d),
            None => id,
        }
    }
}

/// Whether `ancestor_id` lies on the parent chain of `id`. At equal depth a
/// block is its own ancestor.
pub open spec fn is_ancestor_of(lm: Map<u64, Link>, id: u64, ancestor_id: u64) -> bool {
    &&& lm.dom().contains(id)
    &&& lm.dom().contains(ancestor_id)
    &&& lm[ancestor_id].depth <= lm[id].depth
    &&& ancestor_at(lm, id, lm[ancestor_id].depth) == ancestor_id
}

/// The ancestor at depth `d` is a stored block, and its depth is `d`.
pub proof fn lemma_ancestor_at_props(lm: Map<u64, Link>, id: u64, d: nat)
    requires
        link_wf(lm),
        lm.dom().contains(id),
        d <= lm[id].depth,
    ensures
        lm.dom().contains(ancestor_at(lm, id, d)),
        lm[ancestor_at(lm, id, d)].depth == d,
    decreases lm[id].depth,
{
    if lm[id].depth != d {
        lemma_ancestor_at_props(lm, lm[id].parent->Some_0, d);
    }
}

/// Ancestry composes: going up to depth `d1` and on to depth `d2` lands on
/// the same block as going to `d2` directly.
pub proof fn lemma_ancestor_at_compose(lm: Map<u64, Link>, id: u64, d1: nat, d2: nat)
    requires
        link_wf(lm),
        lm.dom().contains(id),
        d2 <= d1 <= lm[id].depth,
    ensures
        lm.dom().contains(ancestor_at(lm, id, d1)),
        ancestor_at(lm, ancestor_at(lm, id, d1), d2) == ancestor_at(lm, id, d2),
    decreases lm[id].depth,
{
    lemma_ancestor_at_props(lm, id, d1);
    if lm[id].depth != d1 {
        lemma_ancestor_at_compose(lm, lm[id].parent->Some_0, d1, d2);
    }
}

/// Ancestry only reads parent links and depths: a second map that agrees on
/// them over the first map's domain answers every ancestor query alike.
pub proof fn lemma_ancestor_at_frame(lm1: Map<u64, Link>, lm2: Map<u64, Link>, id: u64, d: nat)
    requires
        link_wf(lm1),
        link_wf(lm2),
        lm1.dom().contains(id),
        d <= lm1[id].depth,
        forall|x: u64| #[trigger]
            lm1.dom().contains(x) ==> lm2.dom().contains(x) && lm2[x].parent == lm1[x].parent
                && lm2[x].depth == lm1[x].depth,
    ensures
        ancestor_at(lm2, id, d) == ancestor_at(lm1, id, d),
    decreases lm1[id].depth,
{
    if lm1[id].depth != d {
        lemma_ancestor_at_frame(lm1, lm2, lm1[id].parent->Some_0, d);
    }
}

/// Every block is its own ancestor at its own depth.
pub proof fn lemma_ancestor_at_own_depth(lm: Map<u64, Link>, id: u64)
    requires
        link_wf(lm),
        lm.dom().contains(id),
    ensures
        ancestor_at(lm, id, lm[id].depth) == id,
        is_ancestor_of(lm, id, id),
{
}

/// Along a stored parent path `ids[0] -> ids[1] -> ...`, every earlier block
/// is the ancestor of every later block at its own depth, and depths rise by
/// one per step.
pub proof fn lemma_path_ancestors(lm: Map<u64, Link>, ids: Seq<u64>, i: int, j: int)
    requires
        link_wf(lm),
        0 <= i <= j < ids.len(),
        forall|t: int| 0 <= t < ids.len() ==> lm.dom().contains(#[trigger] ids[t]),
        forall|t: int| 1 <= t < ids.len() ==> lm[#[trigger] ids[t]].parent == Some(ids[t - 1]),
    ensures
        lm[ids[j]].depth == lm[ids[i]].depth + (j - i),
        ancestor_at(lm, ids[j], lm[ids[i]].depth) == ids[i],
        is_ancestor_of(lm, ids[j], ids[i]),
    decreases j - i,
{
    if i == j {
        lemma_ancestor_at_own_depth(lm, ids[i]);
    } else {
        lemma_path_ancestors(lm, ids, i, j - 1);
        assert(lm[ids[j]].parent == Some(ids[j - 1]));
    }
}

/// Two blocks whose ancestors at some common depth differ lie on diverged
/// forks: neither is an ancestor of the other.
pub proof fn lemma_diverged_not_ancestors(lm: Map<u64, Link>, a: u64, b: u64, d: nat)
    requires
        link_wf(lm),
        lm.dom().contains(a),
        lm.dom().contains(b),
        d <= lm[a].depth,
        d <= lm[b].depth,
        ancestor_at(lm, a, d) != ancestor_at(lm, b, d),
    ensures
        !is_ancestor_of(lm, a, b),
        !is_ancestor_of(lm, b, a),
{
    if is_ancestor_of(lm, a, b) {
        lemma_ancestor_at_compose(lm, a, lm[b].depth, d);
        assert(false);
    }
    if is_ancestor_of(lm, b, a) {
        lemma_ancestor_at_compose(lm, b, lm[a].depth, d);
        assert(false);
    }
}

} // verus!
