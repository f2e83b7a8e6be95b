//! A simple chain test: a genesis block imported into a transactional
//! fork-tree-plus-state pair, with fixed identifiers.

use blockchain::memory::{
    ChainData, MemoryFlatState, MemoryForkTree, MemoryForkTreeInsertError,
    MemoryForkTreeQueryError, MemoryTransactional,
};
use blockchain::SimpleBlock;

#[derive(Debug, Clone)]
enum ChainError {
    ForkTreeInsert(MemoryForkTreeInsertError),
    ForkTreeQuery(MemoryForkTreeQueryError),
}

impl From<MemoryForkTreeInsertError> for ChainError {
    fn from(err: MemoryForkTreeInsertError) -> Self {
        Self::ForkTreeInsert(err)
    }
}

impl From<MemoryForkTreeQueryError> for ChainError {
    fn from(err: MemoryForkTreeQueryError) -> Self {
        Self::ForkTreeQuery(err)
    }
}

#[test]
fn basic_build_and_import() -> Result<(), ChainError> {
    // Define a genesis block.
    let genesis_block = SimpleBlock {
        id: 1,
        parent_id: None,
        number: 0,
    };

    // Genesis carries no extrinsics; its state is set directly.
    let genesis_extrinsics: Vec<(u64, u64)> = Vec::new();

    // Define a genesis state.
    let genesis_state: Vec<(u64, Option<u64>)> = vec![(100, Some(100)), (200, Some(200))];

    // Create a new chain.
    let mut chain: MemoryTransactional<ChainData<SimpleBlock, u64>> =
        MemoryTransactional::new(ChainData {
            fork_tree: MemoryForkTree::new(),
            state: MemoryFlatState::new(),
        });

    // Import the genesis into the fork tree and apply the genesis state.
    chain.apply(|data: &mut ChainData<SimpleBlock, u64>| {
        data.fork_tree.insert(genesis_block)?;

        // It's possible to handle extrinsics in a genesis, but it's a rare
        // thing, and here we just assert that it's empty.
        assert!(genesis_extrinsics.is_empty());

        data.state
            .apply(genesis_state.clone(), genesis_block.id, &data.fork_tree)?;

        Ok::<_, ChainError>(())
    })?;

    // The genesis state is visible at the genesis block.
    let data = chain.current();
    assert_eq!(data.state.get(100, 1, &data.fork_tree), Ok(Some(&100)));
    assert_eq!(data.state.get(200, 1, &data.fork_tree), Ok(Some(&200)));

    Ok(())
}
