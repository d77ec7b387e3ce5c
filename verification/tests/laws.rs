use reth2030::peer::{PeerInfo, PeerManager};
use reth2030::state::{Account, InMemoryState, StateStore};
use reth2030::execution::{ExecutionEngine, SimpleExecutionEngine};
use reth2030::types::{Block, Header, LegacyTx, Transaction};

fn funded(entries: &[([u8; 20], u128)]) -> InMemoryState {
    let mut state = InMemoryState::new();
    for (address, balance) in entries {
        state.upsert_account(
            *address,
            Account {
                balance: *balance,
                ..Account::default()
            },
        );
    }
    state
}

fn transfer_tx(from: [u8; 20], to: [u8; 20], nonce: u64, value: u128) -> Transaction {
    Transaction::Legacy(LegacyTx {
        nonce,
        from,
        to: Some(to),
        gas_limit: 21_000,
        gas_price: 1,
        value,
        data: Vec::new(),
    })
}

fn balance_of(state: &InMemoryState, address: [u8; 20]) -> u128 {
    state
        .get_account(&address)
        .map(|account| account.balance)
        .unwrap_or(0)
}

#[test]
fn transfer_between_distinct_accounts_conserves_value() {
    let a = [0x0a; 20];
    let b = [0x0b; 20];
    let mut state = funded(&[(a, 10), (b, 5)]);
    state.transfer(a, b, 7).expect("funded transfer");
    assert_eq!(balance_of(&state, a) + balance_of(&state, b), 15);
    assert_eq!(balance_of(&state, a), 3);
}

#[test]
fn addresses_differing_in_one_byte_hold_separate_accounts() {
    let a = [0x01; 20];
    let mut b = a;
    b[19] = 0x02;
    let mut c = a;
    c[0] = 0x00;
    let state = funded(&[(a, 1), (b, 2), (c, 3)]);
    assert_eq!(balance_of(&state, a), 1);
    assert_eq!(balance_of(&state, b), 2);
    assert_eq!(balance_of(&state, c), 3);
    assert_eq!(state.snapshot().len(), 3);
    let addresses = state.snapshot().addresses();
    assert_eq!(addresses, vec![c, a, b]);
}

#[test]
fn applying_transactions_together_equals_applying_them_in_turn() {
    let a = [0x0a; 20];
    let b = [0x0b; 20];
    let txs = vec![transfer_tx(a, b, 0, 4), transfer_tx(b, a, 0, 1)];
    let mut together = funded(&[(a, 10)]);
    together.apply_transactions(&txs).expect("both apply");
    let mut in_turn = funded(&[(a, 10)]);
    in_turn.apply_transaction(&txs[0]).expect("first applies");
    in_turn.apply_transaction(&txs[1]).expect("second applies");
    assert_eq!(together.snapshot(), in_turn.snapshot());
}

#[test]
fn peer_count_never_exceeds_the_limit_and_sessions_are_fresh() {
    let mut manager = PeerManager::new(2);
    let mut last_session = 0;
    for seed in 0..5u8 {
        let _ = manager.connect(PeerInfo::new([seed; 16], "127.0.0.1:30303"));
        assert!(manager.peer_count() <= manager.max_peers());
        if let Some(session) = manager.session(&[seed; 16]) {
            assert!(session.session_id > last_session);
            last_session = session.session_id;
        }
    }
    assert_eq!(manager.peer_count(), 2);
    let before = manager.events().len();
    assert!(!manager.disconnect(&[9; 16]));
    assert_eq!(manager.events().len(), before);
}

#[test]
fn generic_execution_entry_matches_the_engine() {
    let a = [0x0a; 20];
    let b = [0x0b; 20];
    let block = Block {
        header: Header {
            parent_hash: [0; 32],
            number: 1,
            timestamp: 0,
            gas_limit: 42_000,
            gas_used: 0,
            state_root: [0; 32],
            transactions_root: [0; 32],
            receipts_root: [0; 32],
        },
        transactions: vec![transfer_tx(a, b, 0, 3), transfer_tx(b, a, 0, 1)],
        receipts: Vec::new(),
    };
    let engine = SimpleExecutionEngine::default();
    let mut direct = funded(&[(a, 10)]);
    let mut through_trait = funded(&[(a, 10)]);
    let first = engine.execute_block_in(&mut direct, &block);
    let second = engine.execute_block(&mut through_trait, &block);
    assert_eq!(first, second);
    assert_eq!(direct.snapshot(), through_trait.snapshot());
    assert_eq!(first.expect("block executes").total_gas_used, 42_000);
}
