use reth2030::state::InMemoryState;
use reth2030::execution::{ExecutionEngine, SimpleExecutionEngine};
use reth2030::types::{Block, Header};

fn empty_block() -> Block {
    Block {
        header: Header {
            parent_hash: [0; 32],
            number: 1,
            timestamp: 1_762_312_000,
            gas_limit: 30_000_000,
            gas_used: 0,
            state_root: [0; 32],
            transactions_root: [0; 32],
            receipts_root: [0; 32],
        },
        transactions: Vec::new(),
        receipts: Vec::new(),
    }
}

#[test]
fn execution_engine_trait_is_dyn_dispatchable_from_public_api() {
    let engine: Box<dyn ExecutionEngine> = Box::new(SimpleExecutionEngine::default());
    let mut state = InMemoryState::new();
    let block = empty_block();

    let result = engine
        .execute_block(&mut state, &block)
        .expect("empty block should execute through dyn-dispatched engine");

    assert_eq!(result.total_gas_used, 0);
    assert!(result.tx_results.is_empty());
    assert!(result.receipts.is_empty());
}
