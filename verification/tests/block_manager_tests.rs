use std::collections::HashSet;

use mysticeti_core::block_manager::BlockManager;
use mysticeti_core::types::{BlockReference, StatementBlock};
use rand::prelude::StdRng;
use rand::seq::SliceRandom;
use rand::SeedableRng;

fn reference(authority: u64, round: u64) -> BlockReference {
    BlockReference::new_test(authority, round)
}

fn block(authority: u64, round: u64, includes: Vec<BlockReference>) -> StatementBlock {
    StatementBlock::new(reference(authority, round), includes)
}

/// The DAG `A1:[A0, B0]; B1:[A0, B0]; B2:[A0, B1]; A2:[A1, B2]`, with its
/// genesis blocks (authority A is 0, authority B is 1).
fn dag_with_genesis() -> Vec<StatementBlock> {
    vec![
        StatementBlock::new_genesis(0),
        StatementBlock::new_genesis(1),
        block(0, 1, vec![reference(0, 0), reference(1, 0)]),
        block(1, 1, vec![reference(0, 0), reference(1, 0)]),
        block(1, 2, vec![reference(0, 0), reference(1, 1)]),
        block(0, 2, vec![reference(0, 1), reference(1, 2)]),
    ]
}

fn rng(s: u8) -> StdRng {
    let mut seed = [0; 32];
    seed[0] = s;
    StdRng::from_seed(seed)
}

#[test]
fn test_block_manager_add_block() {
    let dag = dag_with_genesis();
    assert_eq!(dag.len(), 6); // 4 blocks in dag + 2 genesis
    for seed in 0..100u8 {
        println!("Seed {seed}");
        let mut blocks = dag.clone();
        blocks.shuffle(&mut rng(seed));
        let mut bm = BlockManager::new();
        let mut processed_blocks = HashSet::new();
        for block in blocks {
            let processed = bm.add_blocks(vec![block.clone()]);
            println!("Adding {:?}:", block.reference());
            for p in processed {
                println!("{:?},", p.reference());
                if !processed_blocks.insert(p.reference().clone()) {
                    panic!("Block {:?} processed twice", p.reference());
                }
            }
        }
        assert_eq!(bm.pending_len(), 0);
        assert_eq!(processed_blocks.len(), dag.len());
        assert_eq!(bm.block_store().len_expensive(), dag.len());
        println!("======");
    }
}
