//! Overlayed flat state: buffered reads and writes, isolation between
//! overlays, and committing a drained changeset.

use blockchain::memory::{MemoryFlatState, MemoryForkTree};
use blockchain::SimpleBlock;

fn block(id: u64, parent_id: Option<u64>, number: u64) -> SimpleBlock {
    SimpleBlock {
        id,
        parent_id,
        number,
    }
}

/// g(1, depth 0) - a(2, depth 1), with the state {7: 70} written at g.
fn setup() -> (MemoryForkTree<SimpleBlock>, MemoryFlatState<u64>) {
    let mut tree: MemoryForkTree<SimpleBlock> = MemoryForkTree::new();
    tree.insert(block(1, None, 0)).unwrap();
    tree.insert(block(2, Some(1), 1)).unwrap();
    let mut state: MemoryFlatState<u64> = MemoryFlatState::new();
    state.apply(vec![(7, Some(70))], 1, &tree).unwrap();
    (tree, state)
}

#[test]
fn overlay_reads_fall_through() {
    let (tree, state) = setup();
    let overlay = state.overlayed(2, &tree);
    assert_eq!(overlay.get(7), Ok(Some(&70)));
    assert_eq!(overlay.get(8), Ok(None));
}

#[test]
fn overlay_buffers_writes_locally() {
    let (tree, state) = setup();
    {
        let mut overlay = state.overlayed(2, &tree);
        overlay.insert(7, 71);
        overlay.insert(8, 80);
        overlay.remove(9);
        // Buffered writes are visible through the overlay, tombstone
        // included.
        assert_eq!(overlay.get(7), Ok(Some(&71)));
        assert_eq!(overlay.get(8), Ok(Some(&80)));
        assert_eq!(overlay.get(9), Ok(None));
        // A rewrite of a buffered key keeps the last value.
        overlay.insert(8, 81);
        assert_eq!(overlay.get(8), Ok(Some(&81)));
        // A buffered tombstone hides an underlying value.
        overlay.remove(7);
        assert_eq!(overlay.get(7), Ok(None));
    }
    // Dropping the overlay abandons the buffer: nothing reached the state.
    assert_eq!(state.get(7, 2, &tree), Ok(Some(&70)));
    assert_eq!(state.get(8, 2, &tree), Ok(None));
}

#[test]
fn overlay_commit_flow() {
    let (tree, mut state) = setup();
    let mut overlay = state.overlayed(1, &tree);
    overlay.insert(8, 80);
    overlay.remove(7);
    let changeset = overlay.into_changeset();
    // The drained changeset carries both writes; apply it at block 2.
    state.apply(changeset, 2, &tree).unwrap();
    assert_eq!(state.get(8, 2, &tree), Ok(Some(&80)));
    assert_eq!(state.get(7, 2, &tree), Ok(None));
    // The parent block still reads the old state.
    assert_eq!(state.get(7, 1, &tree), Ok(Some(&70)));
    assert_eq!(state.get(8, 1, &tree), Ok(None));
}

#[test]
fn untouched_overlay_drains_empty() {
    let (tree, mut state) = setup();
    let overlay = state.overlayed(1, &tree);
    let changeset = overlay.into_changeset();
    assert!(changeset.is_empty());
    state.apply(changeset, 2, &tree).unwrap();
    assert_eq!(state.get(7, 2, &tree), Ok(Some(&70)));
}

#[test]
fn overlay_isolation() {
    let (tree, state) = setup();
    // Two overlays against the same parent and the same flat state, each
    // inserting a different value for the same key.
    let mut overlay_a = state.overlayed(2, &tree);
    let mut overlay_b = state.overlayed(2, &tree);
    overlay_a.insert(7, 100);
    overlay_b.insert(7, 200);
    // Each sees its own buffered write and not the other's.
    assert_eq!(overlay_a.get(7), Ok(Some(&100)));
    assert_eq!(overlay_b.get(7), Ok(Some(&200)));
    // A key only one overlay wrote stays invisible to the other.
    overlay_a.insert(8, 1);
    assert_eq!(overlay_b.get(8), Ok(None));
    // The underlying state saw none of it.
    assert_eq!(state.get(7, 2, &tree), Ok(Some(&70)));
}
