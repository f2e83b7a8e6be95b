//! Flat versioned state: apply/get round trips, fork-aware visibility and
//! tombstones.

use blockchain::memory::{MemoryFlatState, MemoryForkTree, MemoryForkTreeQueryError};
use blockchain::SimpleBlock;

fn block(id: u64, parent_id: Option<u64>, number: u64) -> SimpleBlock {
    SimpleBlock {
        id,
        parent_id,
        number,
    }
}

/// g(1, depth 0) - a(2, depth 1) - b(3, depth 2), plus a sibling fork
/// c(4, depth 1) - d(5, depth 2) - e(6, depth 3) diverging at g.
fn two_forks() -> MemoryForkTree<SimpleBlock> {
    let mut tree: MemoryForkTree<SimpleBlock> = MemoryForkTree::new();
    tree.insert(block(1, None, 0)).unwrap();
    tree.insert(block(2, Some(1), 1)).unwrap();
    tree.insert(block(3, Some(2), 2)).unwrap();
    tree.insert(block(4, Some(1), 1)).unwrap();
    tree.insert(block(5, Some(4), 2)).unwrap();
    tree.insert(block(6, Some(5), 3)).unwrap();
    tree
}

#[test]
fn apply_get_round_trip() {
    let tree = two_forks();
    let mut state: MemoryFlatState<u64> = MemoryFlatState::new();
    // An applied value reads back at the writing block.
    state.apply(vec![(7, Some(77))], 2, &tree).unwrap();
    assert_eq!(state.get(7, 2, &tree), Ok(Some(&77)));
    // An applied tombstone reads back as None.
    state.apply(vec![(7, None)], 2, &tree).unwrap();
    assert_eq!(state.get(7, 2, &tree), Ok(None));
}

#[test]
fn unwritten_key_reads_none() {
    let tree = two_forks();
    let state: MemoryFlatState<u64> = MemoryFlatState::new();
    assert_eq!(state.get(123, 3, &tree), Ok(None));
}

#[test]
fn unknown_block_errors() {
    let tree = two_forks();
    let mut state: MemoryFlatState<u64> = MemoryFlatState::new();
    assert_eq!(
        state.apply(vec![(1, Some(1))], 99, &tree),
        Err(MemoryForkTreeQueryError::UnknownBlock)
    );
    assert_eq!(
        state.get(1, 99, &tree),
        Err(MemoryForkTreeQueryError::UnknownBlock)
    );
}

#[test]
fn visibility_respects_forks() {
    let tree = two_forks();
    let mut state: MemoryFlatState<u64> = MemoryFlatState::new();
    // A write only on the first fork, at block 2 (depth 1).
    state.apply(vec![(7, Some(77))], 2, &tree).unwrap();
    // Visible on that fork's tip.
    assert_eq!(state.get(7, 3, &tree), Ok(Some(&77)));
    // Not visible anywhere on the diverged fork, even though its tip is
    // deeper than the writing block.
    assert_eq!(state.get(7, 4, &tree), Ok(None));
    assert_eq!(state.get(7, 6, &tree), Ok(None));
    // Not visible on the common ancestor either.
    assert_eq!(state.get(7, 1, &tree), Ok(None));
}

#[test]
fn visibility_respects_ancestry_order() {
    let tree = two_forks();
    let mut state: MemoryFlatState<u64> = MemoryFlatState::new();
    // An ancestor's write is visible on a descendant with no write of its
    // own.
    state.apply(vec![(7, Some(10))], 1, &tree).unwrap();
    assert_eq!(state.get(7, 3, &tree), Ok(Some(&10)));
    // A later write on an intermediate ancestor overrides it.
    state.apply(vec![(7, Some(20))], 2, &tree).unwrap();
    assert_eq!(state.get(7, 3, &tree), Ok(Some(&20)));
    // The descendant's own write shadows every ancestor's.
    state.apply(vec![(7, Some(30))], 3, &tree).unwrap();
    assert_eq!(state.get(7, 3, &tree), Ok(Some(&30)));
    // The ancestors still read their own values.
    assert_eq!(state.get(7, 2, &tree), Ok(Some(&20)));
    assert_eq!(state.get(7, 1, &tree), Ok(Some(&10)));
}

#[test]
fn tombstone_shadows_older_value() {
    let tree = two_forks();
    let mut state: MemoryFlatState<u64> = MemoryFlatState::new();
    state.apply(vec![(7, Some(10))], 1, &tree).unwrap();
    state.apply(vec![(7, None)], 2, &tree).unwrap();
    // The deletion wins on the fork that made it.
    assert_eq!(state.get(7, 3, &tree), Ok(None));
    assert_eq!(state.get(7, 2, &tree), Ok(None));
    // The other fork still sees the old value through the common ancestor.
    assert_eq!(state.get(7, 6, &tree), Ok(Some(&10)));
}

#[test]
fn reapply_overwrites_same_block() {
    let tree = two_forks();
    let mut state: MemoryFlatState<u64> = MemoryFlatState::new();
    state.apply(vec![(7, Some(10))], 2, &tree).unwrap();
    state.apply(vec![(7, Some(11))], 2, &tree).unwrap();
    assert_eq!(state.get(7, 2, &tree), Ok(Some(&11)));
    // A later pair in one changeset overrides an earlier one.
    state.apply(vec![(8, Some(1)), (8, Some(2))], 2, &tree).unwrap();
    assert_eq!(state.get(8, 2, &tree), Ok(Some(&2)));
}

#[test]
fn empty_changeset_is_a_no_op() {
    let tree = two_forks();
    let mut state: MemoryFlatState<u64> = MemoryFlatState::new();
    state.apply(vec![(7, Some(77))], 1, &tree).unwrap();
    state.apply(vec![], 2, &tree).unwrap();
    assert_eq!(state.get(7, 2, &tree), Ok(Some(&77)));
    // Even an empty changeset needs a known block.
    assert_eq!(
        state.apply(vec![], 99, &tree),
        Err(MemoryForkTreeQueryError::UnknownBlock)
    );
}

#[test]
fn scenario_two_writes_two_reads() {
    // Insert genesis g (depth 0); insert a (parent g, depth 1); insert b
    // (parent a, depth 2); apply {100: 1} at g and {100: 2} at a; then b
    // sees 2 and g sees 1.
    let mut tree: MemoryForkTree<SimpleBlock> = MemoryForkTree::new();
    tree.insert(block(1, None, 0)).unwrap();
    tree.insert(block(2, Some(1), 1)).unwrap();
    tree.insert(block(3, Some(2), 2)).unwrap();
    let mut state: MemoryFlatState<u64> = MemoryFlatState::new();
    state.apply(vec![(100, Some(1))], 1, &tree).unwrap();
    state.apply(vec![(100, Some(2))], 2, &tree).unwrap();
    assert_eq!(state.get(100, 3, &tree), Ok(Some(&2)));
    assert_eq!(state.get(100, 1, &tree), Ok(Some(&1)));
}
