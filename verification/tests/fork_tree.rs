//! Fork tree: insertion, depth and ancestry queries, forks and skip hops.

use blockchain::memory::{
    MemoryFlatState, MemoryForkTree, MemoryForkTreeInsertError, MemoryForkTreeQueryError,
};
use blockchain::{Headered, Identified, Keyed, SimpleBlock};

fn block(id: u64, parent_id: Option<u64>, number: u64) -> SimpleBlock {
    SimpleBlock {
        id,
        parent_id,
        number,
    }
}

/// Build a single chain of `n + 1` blocks with ids `1000 ..= 1000 + n`, the
/// block of depth `d` having id `1000 + d`.
fn chain_of(n: u64) -> MemoryForkTree<SimpleBlock> {
    let mut tree: MemoryForkTree<SimpleBlock> = MemoryForkTree::new();
    tree.insert(block(1000, None, 0)).unwrap();
    for d in 1..=n {
        tree.insert(block(1000 + d, Some(1000 + d - 1), d)).unwrap();
    }
    tree
}

#[test]
fn simple_block_identity() {
    let b = block(7, Some(3), 42);
    assert_eq!(b.id(), 7);
    assert_eq!(b.parent_id(), Some(3));
    assert_eq!(b.key(), 42);
    assert_eq!(b.header(), b);
    let g = block(9, None, 0);
    assert_eq!(g.parent_id(), None);
}

#[test]
fn block_lookup_and_depth() {
    let tree = chain_of(3);
    assert_eq!(tree.block(1002), Ok(&block(1002, Some(1001), 2)));
    assert_eq!(tree.block_depth(1000), Ok(0));
    assert_eq!(tree.block_depth(1003), Ok(3));
    assert_eq!(tree.block(77), Err(MemoryForkTreeQueryError::UnknownBlock));
    assert_eq!(
        tree.block_depth(77),
        Err(MemoryForkTreeQueryError::UnknownBlock)
    );
}

#[test]
fn unknown_parent_rejected() {
    let mut tree: MemoryForkTree<SimpleBlock> = MemoryForkTree::new();
    tree.insert(block(1, None, 0)).unwrap();
    assert_eq!(
        tree.insert(block(2, Some(99), 1)),
        Err(MemoryForkTreeInsertError::UnknownParent)
    );
    // The rejected block was not stored.
    assert_eq!(tree.block_depth(2), Err(MemoryForkTreeQueryError::UnknownBlock));
}

#[test]
fn ancestor_at_own_depth_is_self() {
    let tree = chain_of(10);
    for d in 0..=10 {
        assert_eq!(tree.ancestor_id_at_depth(1000 + d, d as usize), Ok(1000 + d));
    }
}

#[test]
fn ancestor_beyond_own_depth_fails() {
    let tree = chain_of(5);
    assert_eq!(
        tree.ancestor_id_at_depth(1003, 4),
        Err(MemoryForkTreeQueryError::InvalidAncestorDepth)
    );
    assert_eq!(
        tree.ancestor_id_at_depth(1000, 1),
        Err(MemoryForkTreeQueryError::InvalidAncestorDepth)
    );
    assert_eq!(
        tree.ancestor_id_at_depth(99, 0),
        Err(MemoryForkTreeQueryError::UnknownBlock)
    );
}

#[test]
fn chain_ancestors_all_pairs() {
    let n: u64 = 40;
    let tree = chain_of(n);
    for j in 0..=n {
        for i in 0..=j {
            assert_eq!(
                tree.ancestor_id_at_depth(1000 + j, i as usize),
                Ok(1000 + i)
            );
            assert_eq!(tree.is_ancestor(1000 + j, 1000 + i), Ok(true));
        }
    }
}

#[test]
fn deep_chain_skip_queries() {
    // Deep enough that several skip magnitudes (4, 16, 64, 256) are in play.
    let n: u64 = 300;
    let tree = chain_of(n);
    assert_eq!(tree.ancestor_id_at_depth(1000 + n, 0), Ok(1000));
    assert_eq!(tree.ancestor_id_at_depth(1000 + n, 255), Ok(1255));
    assert_eq!(tree.ancestor_id_at_depth(1000 + n, 256), Ok(1256));
    assert_eq!(tree.ancestor_id_at_depth(1000 + n, 299), Ok(1299));
    assert_eq!(tree.is_ancestor(1300, 1004), Ok(true));
    assert_eq!(tree.is_ancestor(1004, 1300), Err(MemoryForkTreeQueryError::InvalidAncestorDepth));
}

#[test]
fn sibling_forks_are_not_ancestors() {
    // Two branches diverging at block 2 (the common ancestor):
    //   1 - 2 - 10 - 11 - 12      (fork a)
    //         \ 20 - 21           (fork b)
    let mut tree: MemoryForkTree<SimpleBlock> = MemoryForkTree::new();
    tree.insert(block(1, None, 0)).unwrap();
    tree.insert(block(2, Some(1), 1)).unwrap();
    tree.insert(block(10, Some(2), 2)).unwrap();
    tree.insert(block(11, Some(10), 3)).unwrap();
    tree.insert(block(12, Some(11), 4)).unwrap();
    tree.insert(block(20, Some(2), 2)).unwrap();
    tree.insert(block(21, Some(20), 3)).unwrap();

    // The common part is an ancestor of both tips.
    assert_eq!(tree.is_ancestor(12, 2), Ok(true));
    assert_eq!(tree.is_ancestor(21, 2), Ok(true));

    // The diverged tips are not each other's ancestors. The deeper tip can
    // never be an ancestor of the shallower one.
    assert_eq!(tree.is_ancestor(12, 21), Ok(false));
    assert_eq!(tree.is_ancestor(21, 12), Err(MemoryForkTreeQueryError::InvalidAncestorDepth));

    // At equal depth, distinct blocks are not ancestors of each other.
    assert_eq!(tree.is_ancestor(11, 21), Ok(false));
    assert_eq!(tree.is_ancestor(21, 11), Ok(false));

    // A block is its own ancestor.
    assert_eq!(tree.is_ancestor(21, 21), Ok(true));
}

#[test]
fn trait_interface_delegates() {
    // The fork tree and flat state are usable through the interface traits.
    let mut tree: MemoryForkTree<SimpleBlock> = MemoryForkTree::new();
    blockchain::ForkTreeMut::insert(&mut tree, block(1, None, 0)).unwrap();
    assert_eq!(blockchain::ForkTree::block_depth(&tree, 1), Ok(0));
    assert_eq!(blockchain::ForkTree::is_ancestor(&tree, 1, 1), Ok(true));
    assert_eq!(
        blockchain::ForkTree::block(&tree, 1),
        Ok(&block(1, None, 0))
    );
    let mut state: MemoryFlatState<u64> = MemoryFlatState::new();
    blockchain::FlatStateMut::apply(&mut state, vec![(5, Some(50))], 1, &tree).unwrap();
    assert_eq!(blockchain::FlatState::get(&state, &5, 1, &tree), Ok(Some(50)));
}

#[test]
fn multiple_roots_coexist() {
    let mut tree: MemoryForkTree<SimpleBlock> = MemoryForkTree::new();
    tree.insert(block(1, None, 0)).unwrap();
    tree.insert(block(50, None, 0)).unwrap();
    tree.insert(block(2, Some(1), 1)).unwrap();
    tree.insert(block(51, Some(50), 1)).unwrap();
    assert_eq!(tree.block_depth(50), Ok(0));
    assert_eq!(tree.is_ancestor(2, 1), Ok(true));
    assert_eq!(tree.is_ancestor(51, 50), Ok(true));
    // Blocks of separate trees are never each other's ancestors.
    assert_eq!(tree.is_ancestor(2, 50), Ok(false));
    assert_eq!(tree.is_ancestor(51, 1), Ok(false));
}
