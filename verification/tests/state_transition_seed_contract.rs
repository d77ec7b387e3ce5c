use reth2030::state::{Account, AccountStorage, InMemoryState, StateError, StateStore};

fn addr(byte: u8) -> [u8; 20] {
    [byte; 20]
}

#[test]
fn missing_sender_transfer_failure_is_fail_closed() {
    let mut state = InMemoryState::new();
    let before = state.snapshot();

    let err = state
        .transfer(addr(0xaa), addr(0xbb), 1)
        .expect_err("missing sender transfer should fail");

    assert_eq!(
        err,
        StateError::InsufficientBalance {
            address: addr(0xaa),
            available: 0,
            requested: 1,
        }
    );
    assert_eq!(state.snapshot(), before);
    assert_eq!(state.get_account(&addr(0xaa)), None);
    assert_eq!(state.get_account(&addr(0xbb)), None);
}

#[test]
fn storage_update_preserves_account_fields_and_non_target_keys() {
    let mut state = InMemoryState::new();
    let preserved_key = [0x09; 32];
    let preserved_value = [0x0a; 32];
    let target_key = [0x11; 32];
    let target_value = [0x22; 32];

    let mut storage = AccountStorage::new();
    storage.insert(preserved_key, preserved_value);
    state.upsert_account(
        addr(0x01),
        Account {
            nonce: 11,
            balance: 987,
            code: vec![0xca, 0xfe],
            storage,
        },
    );

    state.set_storage(addr(0x01), target_key, target_value);

    let account = state
        .get_account(&addr(0x01))
        .expect("account should exist");
    assert_eq!(account.nonce, 11);
    assert_eq!(account.balance, 987);
    assert_eq!(account.code, vec![0xca, 0xfe]);
    assert_eq!(account.storage.get(&preserved_key), Some(&preserved_value));
    assert_eq!(account.storage.get(&target_key), Some(&target_value));
}

#[test]
fn account_scoped_storage_writes_do_not_leak_on_shared_key() {
    let mut state = InMemoryState::new();
    let shared_key = [0x33; 32];

    state.set_storage(addr(0x01), shared_key, [0x44; 32]);
    state.set_storage(addr(0x02), shared_key, [0x55; 32]);
    state.set_storage(addr(0x01), shared_key, [0x66; 32]);

    assert_eq!(
        state.get_storage(&addr(0x01), &shared_key),
        Some([0x66; 32])
    );
    assert_eq!(
        state.get_storage(&addr(0x02), &shared_key),
        Some([0x55; 32])
    );
}
