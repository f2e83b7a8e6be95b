//! A fork tree that resides entirely in memory, with a depth-indexed
//! skip-ancestor index for logarithmic ancestor queries.

use vstd::prelude::*;

use crate::block::Identified;
use crate::chain::{
    ancestor_at, is_ancestor_of, lemma_ancestor_at_compose, lemma_ancestor_at_frame,
    lemma_ancestor_at_props, link_ok, link_wf, Link,
};

verus! {

/// One stored block with its tree bookkeeping. The `ancestors` list is the
/// sparse skip index: pairs of a depth and the id of this block's ancestor at
/// that depth, recorded once at insertion.
#[derive(Clone)]
struct MemoryForkTreeNode<Block> {
    block: Block,
    parent: Option<u64>,
    depth: usize,
    children: Vec<u64>,
    ancestors: Vec<(usize, u64)>,
}

/// The model of one stored block: the value itself, its parent link, its
/// depth and its recorded children. The skip index is an implementation
/// detail and stays out of the model.
pub struct FtNode<Block> {
    /// The stored block or header value.
    pub block: Block,
    /// Parent identifier; `None` for a root.
    pub parent: Option<u64>,
    /// Distance from the root; roots have depth 0.
    pub depth: nat,
    /// Identifiers of directly descending blocks, in insertion order.
    pub children: Seq<u64>,
}

/// A fork tree that resides entirely in memory.
///
/// Blocks are stored by identifier; each holds its parent, its depth and a
/// sparse list of skip ancestors. Inserting a block whose parent is unknown
/// fails; roots (blocks without a parent) are accepted unconditionally, and
/// several independent roots may coexist.
pub struct MemoryForkTree<Block> {
    blocks: std::collections::HashMap<u64, MemoryForkTreeNode<Block>>,
}

/// Query error for the memory fork tree.
#[derive(Clone, Copy, Debug, PartialEq, Eq)]
pub enum MemoryForkTreeQueryError {
    /// The named block is not stored.
    UnknownBlock,
    /// The requested depth exceeds the block's own depth, so no such
    /// ancestor can exist.
    InvalidAncestorDepth,
}

/// Insert error for the memory fork tree.
#[derive(Clone, Copy, Debug, PartialEq, Eq)]
pub enum MemoryForkTreeInsertError {
    /// The block names a parent that is not stored.
    UnknownParent,
    /// An ancestry query failed while the skip index was being built.
    Query(MemoryForkTreeQueryError),
}

impl<Block: Identified> View for MemoryForkTree<Block> {
    type V = Map<u64, FtNode<Block>>;

    closed spec fn view(&self) -> Map<u64, FtNode<Block>> {
        Map::new(
            |id: u64| self.blocks@.dom().contains(id),
            |id: u64|
                FtNode {
                    block: self.blocks@[id].block,
                    parent: self.blocks@[id].parent,
                    depth: self.blocks@[id].depth as nat,
                    children: self.blocks@[id].children@,
                },
        )
    }
}

/// The parent links and depths of a stored node map, the part ancestry reads.
pub open spec fn ft_links<Block>(m: Map<u64, FtNode<Block>>) -> Map<u64, Link> {
    Map::new(
        |id: u64| m.dom().contains(id),
        |id: u64| Link { parent: m[id].parent, depth: m[id].depth },
    )
}

/// The recorded skip entries of one block all point at true ancestors, at
/// depths strictly below the block's own.
spec fn skip_entries_ok(lm: Map<u64, Link>, id: u64, anc: Seq<(usize, u64)>) -> bool {
    forall|k: int|
        0 <= k < anc.len() ==> {
            &&& (#[trigger] anc[k]).0 < lm[id].depth
            &&& ancestor_at(lm, id, anc[k].0 as nat) == anc[k].1
        }
}

impl<Block: Identified> MemoryForkTree<Block> {
    /// The parent links and depths of the stored blocks.
    pub open spec fn lm(&self) -> Map<u64, Link> {
        ft_links(self@)
    }

    /// The skip index is sound: every recorded entry names a true ancestor.
    pub closed spec fn skip_inv(&self) -> bool {
        forall|id: u64| #[trigger]
            self.blocks@.dom().contains(id) ==> skip_entries_ok(
                self.lm(),
                id,
                self.blocks@[id].ancestors@,
            )
    }

    /// Well-formedness: parent links are consistent and the skip index is
    /// sound. Constructors establish this and every operation preserves it.
    pub open spec fn wf(&self) -> bool {
        &&& link_wf(self.lm())
        &&& self.skip_inv()
    }

    /// Create a new, empty fork tree.
    pub fn new() -> (s: Self)
        ensures
            s@ == Map::<u64, FtNode<Block>>::empty(),
            s.wf(),
    {
        let s = MemoryForkTree { blocks: std::collections::HashMap::new() };
        proof {
            assert(s@ =~= Map::<u64, FtNode<Block>>::empty());
            assert(s.lm() =~= Map::<u64, Link>::empty());
        }
        s
    }

    /// Get a block by its id.
    pub fn block(&self, id: u64) -> (r: Result<&Block, MemoryForkTreeQueryError>)
        ensures
            match r {
                Ok(b) => self@.dom().contains(id) && *b == self@[id].block,
                Err(MemoryForkTreeQueryError::UnknownBlock) => !self@.dom().contains(id),
                Err(MemoryForkTreeQueryError::InvalidAncestorDepth) => false,
            },
    {
        match self.blocks.get(&id) {
            Some(node) => Ok(&node.block),
            None => Err(MemoryForkTreeQueryError::UnknownBlock),
        }
    }

    /// Get a block's depth by its id.
    pub fn block_depth(&self, id: u64) -> (r: Result<usize, MemoryForkTreeQueryError>)
        ensures
            match r {
                Ok(d) => self@.dom().contains(id) && d == self@[id].depth,
                Err(MemoryForkTreeQueryError::UnknownBlock) => !self@.dom().contains(id),
                Err(MemoryForkTreeQueryError::InvalidAncestorDepth) => false,
            },
    {
        match self.blocks.get(&id) {
            Some(node) => Ok(node.depth),
            None => Err(MemoryForkTreeQueryError::UnknownBlock),
        }
    }

    /// Find the ancestor of `id` at depth `ancestor_depth`.
    ///
    /// Returns `id` itself when the requested depth is the block's own depth,
    /// and fails with `InvalidAncestorDepth` exactly when the requested depth
    /// exceeds it. The traversal greedily hops to the recorded skip ancestor
    /// of smallest depth still at or above the target, falling back to the
    /// parent link.
    pub fn ancestor_id_at_depth(&self, id: u64, ancestor_depth: usize) -> (r: Result<
        u64,
        MemoryForkTreeQueryError,
    >)
        requires
            self.wf(),
        ensures
            match r {
                Ok(a) => self@.dom().contains(id) && ancestor_depth <= self@[id].depth && a
                    == ancestor_at(self.lm(), id, ancestor_depth as nat),
                Err(MemoryForkTreeQueryError::UnknownBlock) => !self@.dom().contains(id),
                Err(MemoryForkTreeQueryError::InvalidAncestorDepth) => self@.dom().contains(id)
                    && ancestor_depth > self@[id].depth,
            },
    {
        let start_depth = match self.blocks.get(&id) {
            Some(node) => node.depth,
            None => {
                return Err(MemoryForkTreeQueryError::UnknownBlock);
            },
        };
        if ancestor_depth > start_depth {
            return Err(MemoryForkTreeQueryError::InvalidAncestorDepth);
        }
        let mut cur = id;
        let mut cur_depth = start_depth;
        while cur_depth > ancestor_depth
            invariant
                self.wf(),
                self@.dom().contains(id),
                ancestor_depth <= self@[id].depth,
                self@.dom().contains(cur),
                self@[cur].depth == cur_depth,
                ancestor_depth <= cur_depth,
                ancestor_at(self.lm(), cur, ancestor_depth as nat) == ancestor_at(
                    self.lm(),
                    id,
                    ancestor_depth as nat,
                ),
            decreases cur_depth,
        {
            let node = match self.blocks.get(&cur) {
                Some(node) => node,
                None => {
                    proof {
                        assert(false);
                    }
                    return Err(MemoryForkTreeQueryError::UnknownBlock);
                },
            };
            // Choose the next hop: the skip ancestor of smallest depth that is
            // still >= the target depth, if any.
            let mut found = false;
            let mut best_depth: usize = 0;
            let mut best_id: u64 = 0;
            let mut k: usize = 0;
            while k < node.ancestors.len()
                invariant
                    self.wf(),
                    self@.dom().contains(cur),
                    self@[cur].depth == cur_depth,
                    *node == self.blocks@[cur],
                    found ==> ancestor_depth <= best_depth && best_depth < cur_depth
                        && ancestor_at(self.lm(), cur, best_depth as nat) == best_id,
                decreases node.ancestors.len() - k,
            {
                let (dd, aid) = node.ancestors[k];
                if dd >= ancestor_depth && (!found || dd < best_depth) {
                    proof {
                        assert(self.blocks@.dom().contains(cur));
                        assert(skip_entries_ok(self.lm(), cur, node.ancestors@));
                        assert((node.ancestors@[k as int]).0 < self.lm()[cur].depth);
                    }
                    found = true;
                    best_depth = dd;
                    best_id = aid;
                }
                k += 1;
            }
            if found {
                proof {
                    lemma_ancestor_at_compose(
                        self.lm(),
                        cur,
                        best_depth as nat,
                        ancestor_depth as nat,
                    );
                    lemma_ancestor_at_props(self.lm(), cur, best_depth as nat);
                }
                cur = best_id;
                cur_depth = best_depth;
            } else {
                match node.parent {
                    Some(p) => {
                        proof {
                            assert(self.lm().dom().contains(cur));
                            assert(link_ok(self.lm(), cur));
                            assert(self.lm()[p].depth + 1 == cur_depth);
                            assert(ancestor_at(self.lm(), p, (cur_depth - 1) as nat) == p);
                            assert(ancestor_at(self.lm(), cur, (cur_depth - 1) as nat) == p);
                            lemma_ancestor_at_compose(
                                self.lm(),
                                cur,
                                (cur_depth - 1) as nat,
                                ancestor_depth as nat,
                            );
                        }
                        cur = p;
                        cur_depth = cur_depth - 1;
                    },
                    None => {
                        proof {
                            assert(self.lm().dom().contains(cur));
                            assert(link_ok(self.lm(), cur));
                            assert(false);
                        }
                        return Err(MemoryForkTreeQueryError::InvalidAncestorDepth);
                    },
                }
            }
        }
        proof {
            assert(ancestor_at(self.lm(), cur, ancestor_depth as nat) == cur);
        }
        Ok(cur)
    }

    /// Whether `ancestor_id` is an ancestor of `id`: resolve the candidate's
    /// depth, then compare the ancestor of `id` at that depth against it. At
    /// equal depth a block is its own ancestor; a candidate deeper than `id`
    /// fails with `InvalidAncestorDepth`.
    pub fn is_ancestor(&self, id: u64, ancestor_id: u64) -> (r: Result<
        bool,
        MemoryForkTreeQueryError,
    >)
        requires
            self.wf(),
        ensures
            match r {
                Ok(b) => self@.dom().contains(id) && self@.dom().contains(ancestor_id)
                    && self@[ancestor_id].depth <= self@[id].depth && b == is_ancestor_of(
                    self.lm(),
                    id,
                    ancestor_id,
                ),
                Err(MemoryForkTreeQueryError::UnknownBlock) => !self@.dom().contains(id)
                    || !self@.dom().contains(ancestor_id),
                Err(MemoryForkTreeQueryError::InvalidAncestorDepth) => self@.dom().contains(id)
                    && self@.dom().contains(ancestor_id) && self@[ancestor_id].depth
                    > self@[id].depth,
            },
    {
        let ancestor_depth = match self.block_depth(ancestor_id) {
            Ok(d) => d,
            Err(e) => {
                return Err(e);
            },
        };
        match self.ancestor_id_at_depth(id, ancestor_depth) {
            Ok(a) => Ok(a == ancestor_id),
            Err(e) => Err(e),
        }
    }

    /// Insert a new block.
    ///
    /// A block without a parent becomes a root at depth 0. A block whose
    /// parent is stored is placed one level below it, is appended to the
    /// parent's children, and gets a skip entry for every magnitude `4^1` to
    /// `4^16` that divides its depth. A block naming an unknown parent is
    /// rejected. Identifiers are globally unique, so the block's id must not
    /// be stored yet.
    pub fn insert(&mut self, block: Block) -> (r: Result<(), MemoryForkTreeInsertError>)
        requires
            old(self).wf(),
            !old(self)@.dom().contains(block.id_spec()),
        ensures
            final(self).wf(),
            match r {
                Ok(()) => match block.parent_id_spec() {
                    Some(p) => old(self)@.dom().contains(p) && final(self)@ == old(self)@.insert(
                        p,
                        FtNode {
                            block: old(self)@[p].block,
                            parent: old(self)@[p].parent,
                            depth: old(self)@[p].depth,
                            children: old(self)@[p].children.push(block.id_spec()),
                        },
                    ).insert(
                        block.id_spec(),
                        FtNode {
                            block,
                            parent: Some(p),
                            depth: old(self)@[p].depth + 1,
                            children: Seq::empty(),
                        },
                    ),
                    None => final(self)@ == old(self)@.insert(
                        block.id_spec(),
                        FtNode { block, parent: None, depth: 0nat, children: Seq::empty() },
                    ),
                },
                Err(MemoryForkTreeInsertError::UnknownParent) => final(self)@ == old(self)@
                    && match block.parent_id_spec() {
                    Some(p) => !old(self)@.dom().contains(p),
                    None => false,
                },
                Err(MemoryForkTreeInsertError::Query(_)) => false,
            },
    {
        let id = block.id();
        match block.parent_id() {
            None => {
                let node = MemoryForkTreeNode {
                    block,
                    parent: None,
                    depth: 0,
                    children: Vec::new(),
                    ancestors: Vec::new(),
                };
                self.blocks.insert(id, node);
                proof {
                    let lm0 = old(self).lm();
                    let lm1 = self.lm();
                    assert(self@ =~= old(self)@.insert(
                        id,
                        FtNode { block, parent: None, depth: 0nat, children: Seq::empty() },
                    ));
                    assert(lm1 =~= lm0.insert(id, Link { parent: None, depth: 0nat }));
                    assert(lm1.dom() =~= lm0.dom().insert(id));
                    vstd::set::axiom_set_insert_len(lm0.dom(), id);
                    assert(lm1.dom().len() == lm0.dom().len() + 1);
                    assert forall|x: u64| #[trigger] lm1.dom().contains(x) implies link_ok(
                        lm1,
                        x,
                    ) by {
                        if x != id {
                            assert(lm0.dom().contains(x));
                            assert(link_ok(lm0, x));
                        }
                    }
                    assert(link_wf(lm1));
                    assert forall|x: u64| #[trigger] self.blocks@.dom().contains(x) implies
                        skip_entries_ok(lm1, x, self.blocks@[x].ancestors@) by {
                        if x == id {
                            assert(self.blocks@[x].ancestors@.len() == 0);
                        } else {
                            assert(old(self).blocks@.dom().contains(x));
                            assert(skip_entries_ok(lm0, x, old(self).blocks@[x].ancestors@));
                            lemma_skip_entries_frame(
                                lm0,
                                lm1,
                                x,
                                old(self).blocks@[x].ancestors@,
                            );
                            assert(self.blocks@[x].ancestors@ == old(self).blocks@[x].ancestors@);
                        }
                    }
                }
                Ok(())
            },
            Some(parent_id) => {
                let parent_depth = match self.blocks.get(&parent_id) {
                    Some(parent_node) => parent_node.depth,
                    None => {
                        return Err(MemoryForkTreeInsertError::UnknownParent);
                    },
                };
                let count = self.blocks.len();
                proof {
                    assert(self.lm().dom() =~= self.blocks@.dom());
                    assert(self.lm().dom().contains(parent_id));
                    assert(link_ok(self.lm(), parent_id));
                    assert(parent_depth < count);
                }
                let depth = parent_depth + 1;
                let depth64 = depth as u64;

                // Skip index: for every magnitude 4^1 ..= 4^16 that divides
                // the new depth, record the ancestor of the parent at
                // `depth - magnitude`. The target depths are distinct, so no
                // deduplication is needed.
                let magnitudes: [u64; 16] = [
                    4,
                    16,
                    64,
                    256,
                    1024,
                    4096,
                    16384,
                    65536,
                    262144,
                    1048576,
                    4194304,
                    16777216,
                    67108864,
                    268435456,
                    1073741824,
                    4294967296,
                ];
                let mut ancestors: Vec<(usize, u64)> = Vec::new();
                let mut k: usize = 0;
                while k < 16
                    invariant
                        self.wf(),
                        self.blocks@ == old(self).blocks@,
                        self@.dom().contains(parent_id),
                        self@[parent_id].depth == parent_depth,
                        depth == parent_depth + 1,
                        depth64 == depth as u64,
                        forall|t: int|
                            0 <= t < ancestors@.len() ==> {
                                &&& (#[trigger] ancestors@[t]).0 < depth
                                &&& ancestors@[t].0 <= parent_depth
                                &&& ancestor_at(self.lm(), parent_id, ancestors@[t].0 as nat)
                                    == ancestors@[t].1
                            },
                    decreases 16 - k,
                {
                    let m = magnitudes[k];
                    if m >= 1 && m <= depth64 && depth64 % m == 0 {
                        let target64 = depth64 - m;
                        proof {
                            assert(target64 < depth64);
                            assert(depth64 <= usize::MAX as u64);
                        }
                        let target = target64 as usize;
                        match self.ancestor_id_at_depth(parent_id, target) {
                            Ok(a) => {
                                ancestors.push((target, a));
                            },
                            Err(e) => {
                                proof {
                                    assert(target <= parent_depth);
                                    assert(false);
                                }
                                return Err(MemoryForkTreeInsertError::Query(e));
                            },
                        }
                    }
                    k += 1;
                }
                let ghost anc_seq = ancestors@;

                // Append the new block to its parent's children.
                let mut parent_node = match self.blocks.remove(&parent_id) {
                    Some(n) => n,
                    None => {
                        proof {
                            assert(false);
                        }
                        return Err(MemoryForkTreeInsertError::UnknownParent);
                    },
                };
                parent_node.children.push(id);
                self.blocks.insert(parent_id, parent_node);

                // Store the new block.
                let node = MemoryForkTreeNode {
                    block,
                    parent: Some(parent_id),
                    depth,
                    children: Vec::new(),
                    ancestors,
                };
                self.blocks.insert(id, node);
                proof {
                    let m0 = old(self)@;
                    let lm0 = old(self).lm();
                    let pn0 = m0[parent_id];
                    let lm1 = self.lm();
                    let d = depth as nat;
                    assert(self@ =~= m0.insert(
                        parent_id,
                        FtNode {
                            block: pn0.block,
                            parent: pn0.parent,
                            depth: pn0.depth,
                            children: pn0.children.push(id),
                        },
                    ).insert(
                        id,
                        FtNode { block, parent: Some(parent_id), depth: d, children: Seq::empty() },
                    ));
                    assert(lm1 =~= lm0.insert(id, Link { parent: Some(parent_id), depth: d }));
                    assert(lm1.dom() =~= lm0.dom().insert(id));
                    vstd::set::axiom_set_insert_len(lm0.dom(), id);
                    assert(lm1.dom().len() == lm0.dom().len() + 1);
                    assert forall|x: u64| #[trigger] lm1.dom().contains(x) implies link_ok(
                        lm1,
                        x,
                    ) by {
                        if x == id {
                            assert(lm0.dom().contains(parent_id));
                            assert(link_ok(lm0, parent_id));
                        } else {
                            assert(lm0.dom().contains(x));
                            assert(link_ok(lm0, x));
                        }
                    }
                    assert(link_wf(lm1));
                    assert forall|x: u64| #[trigger] self.blocks@.dom().contains(x) implies
                        skip_entries_ok(lm1, x, self.blocks@[x].ancestors@) by {
                        if x == id {
                            assert(self.blocks@[x].ancestors@ == anc_seq);
                            assert forall|t: int| 0 <= t < anc_seq.len() implies {
                                &&& (#[trigger] anc_seq[t]).0 < lm1[x].depth
                                &&& ancestor_at(lm1, x, anc_seq[t].0 as nat) == anc_seq[t].1
                            } by {
                                let dd = anc_seq[t].0 as nat;
                                assert(dd <= lm0[parent_id].depth);
                                lemma_ancestor_at_frame(lm0, lm1, parent_id, dd);
                                assert(lm1[x].depth == d && d != dd);
                                assert(ancestor_at(lm1, x, dd) == ancestor_at(lm1, parent_id, dd));
                            }
                        } else {
                            assert(old(self).blocks@.dom().contains(x));
                            assert(skip_entries_ok(lm0, x, old(self).blocks@[x].ancestors@));
                            lemma_skip_entries_frame(
                                lm0,
                                lm1,
                                x,
                                old(self).blocks@[x].ancestors@,
                            );
                            assert(self.blocks@[x].ancestors@ == old(
                                self,
                            ).blocks@[x].ancestors@);
                        }
                    }
                }
                Ok(())
            },
        }
    }
}

impl<Block: Identified> crate::chain::ForkTree for MemoryForkTree<Block> {
    type Block = Block;

    type QueryError = MemoryForkTreeQueryError;

    open spec fn wf(&self) -> bool {
        link_wf(self.lm()) && self.skip_inv()
    }

    fn block(&self, id: u64) -> Result<&Block, MemoryForkTreeQueryError> {
        MemoryForkTree::block(self, id)
    }

    fn block_depth(&self, id: u64) -> Result<usize, MemoryForkTreeQueryError> {
        MemoryForkTree::block_depth(self, id)
    }

    fn ancestor_id_at_depth(&self, id: u64, ancestor_depth: usize) -> Result<
        u64,
        MemoryForkTreeQueryError,
    > {
        MemoryForkTree::ancestor_id_at_depth(self, id, ancestor_depth)
    }

    fn is_ancestor(&self, id: u64, ancestor_id: u64) -> Result<bool, MemoryForkTreeQueryError> {
        MemoryForkTree::is_ancestor(self, id, ancestor_id)
    }
}

impl<Block: Identified> crate::chain::ForkTreeMut for MemoryForkTree<Block> {
    type InsertError = MemoryForkTreeInsertError;

    open spec fn may_insert(&self, block: &Block) -> bool {
        !self@.dom().contains(block.id_spec())
    }

    fn insert(&mut self, block: Block) -> Result<(), MemoryForkTreeInsertError> {
        MemoryForkTree::insert(self, block)
    }
}

impl<Block: Identified + Clone> crate::memory::Replicable for MemoryForkTree<Block> {
    open spec fn inv(&self) -> bool {
        self.wf()
    }

    fn replicate(&self) -> (r: Self) {
        let r = MemoryForkTree { blocks: self.blocks.clone() };
        proof {
            assert(r@ =~= self@);
            assert(r.lm() =~= self.lm());
            if self.wf() {
                assert(r.wf()) by {
                    assert forall|id: u64| #[trigger] r.blocks@.dom().contains(id) implies
                        skip_entries_ok(r.lm(), id, r.blocks@[id].ancestors@) by {
                        assert(self.blocks@.dom().contains(id));
                        assert(skip_entries_ok(self.lm(), id, self.blocks@[id].ancestors@));
                    }
                }
            }
        }
        r
    }
}

/// Skip entries stay sound when the link map grows without touching the
/// links the entries' owner can reach.
proof fn lemma_skip_entries_frame(
    lm0: Map<u64, Link>,
    lm1: Map<u64, Link>,
    id: u64,
    anc: Seq<(usize, u64)>,
)
    requires
        link_wf(lm0),
        link_wf(lm1),
        lm0.dom().contains(id),
        skip_entries_ok(lm0, id, anc),
        forall|x: u64| #[trigger]
            lm0.dom().contains(x) ==> lm1.dom().contains(x) && lm1[x].parent == lm0[x].parent
                && lm1[x].depth == lm0[x].depth,
    ensures
        skip_entries_ok(lm1, id, anc),
{
    assert forall|t: int| 0 <= t < anc.len() implies {
        &&& (#[trigger] anc[t]).0 < lm1[id].depth
        &&& ancestor_at(lm1, id, anc[t].0 as nat) == anc[t].1
    } by {
        assert((anc[t]).0 < lm0[id].depth);
        lemma_ancestor_at_frame(lm0, lm1, id, anc[t].0 as nat);
    }
}

} // verus!
