use reth2030::execution::ExecutionError;
use reth2030::peer::PeerManagerError;
use reth2030::state::StateError;
use reth2030::sync::SyncError;
use reth2030::types::ValidationError;

#[test]
fn state_error_message_lists_address_bytes_and_amounts() {
    let err = StateError::InsufficientBalance {
        address: [0xaa; 20],
        available: 5,
        requested: 6,
    };
    let bytes = vec!["170"; 20].join(", ");
    assert_eq!(
        err.message(),
        format!("insufficient balance for [{}]: available=5, requested=6", bytes)
    );
}

#[test]
fn validation_error_messages_name_the_broken_rule() {
    assert_eq!(
        ValidationError::GasUsedExceedsLimit.message(),
        "header.gas_used must be <= header.gas_limit"
    );
    assert_eq!(
        ValidationError::ReceiptCountMismatch.message(),
        "block.receipts length must match block.transactions length"
    );
    assert_eq!(
        ValidationError::ReceiptCumulativeGasNotMonotonic.message(),
        "block.receipts cumulative_gas_used must be non-decreasing"
    );
    assert_eq!(
        ValidationError::ReceiptFinalGasUsedMismatch.message(),
        "last receipt cumulative_gas_used must equal header.gas_used"
    );
}

#[test]
fn execution_error_messages_wrap_causes_and_report_gas() {
    assert_eq!(
        ExecutionError::InvalidBlock(ValidationError::GasUsedExceedsLimit).message(),
        "invalid block: header.gas_used must be <= header.gas_limit"
    );
    let state = ExecutionError::State(StateError::InsufficientBalance {
        address: [0x01; 20],
        available: 0,
        requested: 12,
    });
    let bytes = vec!["1"; 20].join(", ");
    assert_eq!(
        state.message(),
        format!(
            "state transition error: insufficient balance for [{}]: available=0, requested=12",
            bytes
        )
    );
    assert_eq!(
        ExecutionError::GasLimitExceeded {
            gas_limit: 30_000,
            attempted: 42_000,
            tx_index: 1,
        }
        .message(),
        "block gas limit exceeded at tx index 1: attempted=42000, gas_limit=30000"
    );
    assert_eq!(
        ExecutionError::TxGasLimitTooLow {
            tx_gas_limit: 20_999,
            required: 21_000,
            tx_index: 0,
        }
        .message(),
        "transaction gas limit too low at tx index 0: tx_gas_limit=20999, required=21000"
    );
    assert_eq!(
        ExecutionError::GasOverflow {
            cumulative_gas: u64::MAX,
            gas_used: 1,
            tx_index: 2,
        }
        .message(),
        "cumulative gas overflow at tx index 2: cumulative_gas=18446744073709551615, gas_used=1"
    );
}

#[test]
fn peer_manager_error_messages() {
    assert_eq!(
        PeerManagerError::MaxPeersReached { max_peers: 50 }.message(),
        "maximum peers reached (50)"
    );
    assert_eq!(
        PeerManagerError::SessionIdOverflow.message(),
        "peer session identifier overflowed"
    );
}

#[test]
fn sync_error_messages() {
    assert_eq!(
        SyncError::HeaderBatchTooLarge {
            limit: 1,
            received: 2
        }
        .message(),
        "sync source returned 2 headers, exceeding limit 1"
    );
    assert_eq!(
        SyncError::InvalidHeaderSequence {
            expected: 5,
            got: 6
        }
        .message(),
        "sync source returned out-of-sequence header: expected 5, got 6"
    );
    assert_eq!(
        SyncError::HeaderSequenceOverflow {
            last_header: u64::MAX
        }
        .message(),
        "sync header sequence overflowed after header 18446744073709551615"
    );
    assert_eq!(
        SyncError::ExecutionFailed {
            header_number: 8,
            reason: "forced failure".to_string(),
        }
        .message(),
        "execution failed for header 8: forced failure"
    );
}

#[test]
fn execution_error_converts_from_its_causes() {
    assert_eq!(
        ExecutionError::from(ValidationError::ReceiptCountMismatch),
        ExecutionError::InvalidBlock(ValidationError::ReceiptCountMismatch)
    );
    let cause = StateError::InsufficientBalance {
        address: [0x02; 20],
        available: 1,
        requested: 2,
    };
    assert_eq!(
        ExecutionError::from(cause.clone()),
        ExecutionError::State(cause)
    );
}
