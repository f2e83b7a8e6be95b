//! Transactional wrapper: all-or-nothing application against the exposed
//! replica, and repair of the recovery replica.

use std::cell::Cell;

use blockchain::memory::{
    ChainData, MemoryFlatState, MemoryForkTree, MemoryForkTreeInsertError, MemoryTransactional,
};
use blockchain::SimpleBlock;

fn block(id: u64, parent_id: Option<u64>, number: u64) -> SimpleBlock {
    SimpleBlock {
        id,
        parent_id,
        number,
    }
}

fn new_chain() -> MemoryTransactional<ChainData<SimpleBlock, u64>> {
    let mut chain = MemoryTransactional::new(ChainData {
        fork_tree: MemoryForkTree::new(),
        state: MemoryFlatState::new(),
    });
    chain
        .apply(|data: &mut ChainData<SimpleBlock, u64>| {
            data.fork_tree.insert(block(1, None, 0))?;
            data.state
                .apply(vec![(7, Some(70))], 1, &data.fork_tree)
                .map_err(MemoryForkTreeInsertError::Query)?;
            Ok::<_, MemoryForkTreeInsertError>(())
        })
        .unwrap();
    chain
}

#[test]
fn successful_apply_is_visible() {
    let mut chain = new_chain();
    chain
        .apply(|data: &mut ChainData<SimpleBlock, u64>| {
            data.fork_tree.insert(block(2, Some(1), 1))?;
            data.state
                .apply(vec![(7, Some(71))], 2, &data.fork_tree)
                .map_err(MemoryForkTreeInsertError::Query)?;
            Ok::<_, MemoryForkTreeInsertError>(())
        })
        .unwrap();
    let data = chain.current();
    assert_eq!(data.fork_tree.block_depth(2), Ok(1));
    assert_eq!(data.state.get(7, 2, &data.fork_tree), Ok(Some(&71)));
}

#[test]
fn failed_apply_leaves_state_unchanged() {
    let mut chain = new_chain();
    // The operation mutates the state, then fails.
    let r = chain.apply(|data: &mut ChainData<SimpleBlock, u64>| {
        data.fork_tree.insert(block(2, Some(1), 1))?;
        data.state
            .apply(vec![(7, Some(99)), (8, Some(88))], 2, &data.fork_tree)
            .map_err(MemoryForkTreeInsertError::Query)?;
        // A block naming an unknown parent is rejected; the whole
        // operation fails after its earlier writes went through.
        data.fork_tree.insert(block(3, Some(42), 2))?;
        Ok::<_, MemoryForkTreeInsertError>(())
    });
    assert_eq!(r, Err(MemoryForkTreeInsertError::UnknownParent));
    // The exposed state shows none of the operation's effects.
    let data = chain.current();
    assert_eq!(
        data.fork_tree.block_depth(2),
        Err(blockchain::memory::MemoryForkTreeQueryError::UnknownBlock)
    );
    assert_eq!(data.state.get(7, 1, &data.fork_tree), Ok(Some(&70)));
    assert_eq!(data.state.get(8, 1, &data.fork_tree), Ok(None));
}

#[test]
fn repair_after_divergent_failure() {
    // An impure operation that succeeds the first time and fails the
    // second: the wrapper repairs the recovery replica from the first and
    // still reports the success.
    let mut chain = new_chain();
    let calls = Cell::new(0u32);
    let r = chain.apply(|data: &mut ChainData<SimpleBlock, u64>| {
        calls.set(calls.get() + 1);
        if calls.get() == 2 {
            return Err(MemoryForkTreeInsertError::UnknownParent);
        }
        data.fork_tree.insert(block(2, Some(1), 1))?;
        Ok::<_, MemoryForkTreeInsertError>(())
    });
    assert_eq!(r, Ok(()));
    assert_eq!(calls.get(), 2);
    assert_eq!(chain.current().fork_tree.block_depth(2), Ok(1));

    // A later failure restores from the repaired replica: block 2 survives.
    let r2 = chain.apply(|data: &mut ChainData<SimpleBlock, u64>| {
        data.fork_tree.insert(block(9, Some(77), 1))?;
        Ok::<_, MemoryForkTreeInsertError>(())
    });
    assert_eq!(r2, Err(MemoryForkTreeInsertError::UnknownParent));
    assert_eq!(chain.current().fork_tree.block_depth(2), Ok(1));
}
