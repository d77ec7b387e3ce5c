//! Execution-layer primitive types: transactions, receipts, headers and blocks,
//! with the structural checks a block must pass before execution.

use vstd::prelude::*;

pub use crate::keys::{Address, Hash32};

verus! {

/// A pre-EIP-1559 transaction.
#[derive(Debug, Clone, PartialEq, Eq)]
pub struct LegacyTx {
    pub nonce: u64,
    pub from: Address,
    pub to: Option<Address>,
    pub gas_limit: u64,
    pub gas_price: u128,
    pub value: u128,
    pub data: Vec<u8>,
}

/// A dynamic-fee transaction.
#[derive(Debug, Clone, PartialEq, Eq)]
pub struct Eip1559Tx {
    pub nonce: u64,
    pub from: Address,
    pub to: Option<Address>,
    pub gas_limit: u64,
    pub max_fee_per_gas: u128,
    pub max_priority_fee_per_gas: u128,
    pub value: u128,
    pub data: Vec<u8>,
}

/// A blob-carrying transaction.
#[derive(Debug, Clone, PartialEq, Eq)]
pub struct BlobTx {
    pub nonce: u64,
    pub from: Address,
    pub to: Option<Address>,
    pub gas_limit: u64,
    pub max_fee_per_gas: u128,
    pub max_priority_fee_per_gas: u128,
    pub max_fee_per_blob_gas: u128,
    pub value: u128,
    pub data: Vec<u8>,
    pub blob_versioned_hashes: Vec<Hash32>,
}

/// The transaction variants an execution block can carry.
#[derive(Debug, Clone, PartialEq, Eq)]
pub enum Transaction {
    Legacy(LegacyTx),
    Eip1559(Eip1559Tx),
    Blob(BlobTx),
}

impl Transaction {
    pub open spec fn spec_nonce(&self) -> u64 {
        match self {
            Transaction::Legacy(tx) => tx.nonce,
            Transaction::Eip1559(tx) => tx.nonce,
            Transaction::Blob(tx) => tx.nonce,
        }
    }

    pub open spec fn spec_from(&self) -> Address {
        match self {
            Transaction::Legacy(tx) => tx.from,
            Transaction::Eip1559(tx) => tx.from,
            Transaction::Blob(tx) => tx.from,
        }
    }

    pub open spec fn spec_to(&self) -> Option<Address> {
        match self {
            Transaction::Legacy(tx) => tx.to,
            Transaction::Eip1559(tx) => tx.to,
            Transaction::Blob(tx) => tx.to,
        }
    }

    pub open spec fn spec_gas_limit(&self) -> u64 {
        match self {
            Transaction::Legacy(tx) => tx.gas_limit,
            Transaction::Eip1559(tx) => tx.gas_limit,
            Transaction::Blob(tx) => tx.gas_limit,
        }
    }

    pub open spec fn spec_value(&self) -> u128 {
        match self {
            Transaction::Legacy(tx) => tx.value,
            Transaction::Eip1559(tx) => tx.value,
            Transaction::Blob(tx) => tx.value,
        }
    }

    pub open spec fn spec_payload(&self) -> Seq<u8> {
        match self {
            Transaction::Legacy(tx) => tx.data@,
            Transaction::Eip1559(tx) => tx.data@,
            Transaction::Blob(tx) => tx.data@,
        }
    }

    /// The sender's nonce carried by the transaction.
    #[verifier::when_used_as_spec(spec_nonce)]
    pub fn nonce(&self) -> (r: u64)
        ensures
            r == self.spec_nonce(),
    {
        match self {
            Transaction::Legacy(tx) => tx.nonce,
            Transaction::Eip1559(tx) => tx.nonce,
            Transaction::Blob(tx) => tx.nonce,
        }
    }

    /// The sending address.
    #[verifier::when_used_as_spec(spec_from)]
    pub fn from(&self) -> (r: Address)
        ensures
            r == self.spec_from(),
    {
        match self {
            Transaction::Legacy(tx) => tx.from,
            Transaction::Eip1559(tx) => tx.from,
            Transaction::Blob(tx) => tx.from,
        }
    }

    /// The recipient, or `None` for a contract creation.
    #[verifier::when_used_as_spec(spec_to)]
    pub fn to(&self) -> (r: Option<Address>)
        ensures
            r == self.spec_to(),
    {
        match self {
            Transaction::Legacy(tx) => tx.to,
            Transaction::Eip1559(tx) => tx.to,
            Transaction::Blob(tx) => tx.to,
        }
    }

    /// The gas limit the sender set for this transaction.
    #[verifier::when_used_as_spec(spec_gas_limit)]
    pub fn gas_limit(&self) -> (r: u64)
        ensures
            r == self.spec_gas_limit(),
    {
        match self {
            Transaction::Legacy(tx) => tx.gas_limit,
            Transaction::Eip1559(tx) => tx.gas_limit,
            Transaction::Blob(tx) => tx.gas_limit,
        }
    }

    /// The value transferred to the recipient.
    #[verifier::when_used_as_spec(spec_value)]
    pub fn value(&self) -> (r: u128)
        ensures
            r == self.spec_value(),
    {
        match self {
            Transaction::Legacy(tx) => tx.value,
            Transaction::Eip1559(tx) => tx.value,
            Transaction::Blob(tx) => tx.value,
        }
    }

    /// The call data or init code.
    pub fn payload(&self) -> (r: &[u8])
        ensures
            r@ == self.spec_payload(),
    {
        match self {
            Transaction::Legacy(tx) => tx.data.as_slice(),
            Transaction::Eip1559(tx) => tx.data.as_slice(),
            Transaction::Blob(tx) => tx.data.as_slice(),
        }
    }
}

/// A log emitted during execution.
#[derive(Debug, Clone, PartialEq, Eq)]
pub struct LogEntry {
    pub address: Address,
    pub topics: Vec<Hash32>,
    pub data: Vec<u8>,
}

/// The outcome record of one executed transaction.
#[derive(Debug, Clone, PartialEq, Eq)]
pub struct Receipt {
    pub tx_hash: Hash32,
    pub success: bool,
    pub cumulative_gas_used: u64,
    pub logs: Vec<LogEntry>,
}

/// A block header.
#[derive(Debug, Clone, PartialEq, Eq)]
pub struct Header {
    pub parent_hash: Hash32,
    pub number: u64,
    pub timestamp: u64,
    pub gas_limit: u64,
    pub gas_used: u64,
    pub state_root: Hash32,
    pub transactions_root: Hash32,
    pub receipts_root: Hash32,
}

/// Why a header or block fails its structural checks.
#[derive(Debug, Clone, Copy, PartialEq, Eq)]
pub enum ValidationError {
    GasUsedExceedsLimit,
    ReceiptCountMismatch,
    ReceiptCumulativeGasNotMonotonic,
    ReceiptFinalGasUsedMismatch,
}

/// The message of a validation error.
pub open spec fn validation_error_text(e: ValidationError) -> Seq<char> {
    match e {
        ValidationError::GasUsedExceedsLimit => "header.gas_used must be <= header.gas_limit"@,
        ValidationError::ReceiptCountMismatch => "block.receipts length must match block.transactions length"@,
        ValidationError::ReceiptCumulativeGasNotMonotonic => "block.receipts cumulative_gas_used must be non-decreasing"@,
        ValidationError::ReceiptFinalGasUsedMismatch => "last receipt cumulative_gas_used must equal header.gas_used"@,
    }
}

impl ValidationError {
    /// The error's message.
    pub fn message(&self) -> (r: String)
        ensures
            r@ == validation_error_text(*self),
    {
        match self {
            ValidationError::GasUsedExceedsLimit => String::from_str(
                "header.gas_used must be <= header.gas_limit",
            ),
            ValidationError::ReceiptCountMismatch => String::from_str(
                "block.receipts length must match block.transactions length",
            ),
            ValidationError::ReceiptCumulativeGasNotMonotonic => String::from_str(
                "block.receipts cumulative_gas_used must be non-decreasing",
            ),
            ValidationError::ReceiptFinalGasUsedMismatch => String::from_str(
                "last receipt cumulative_gas_used must equal header.gas_used",
            ),
        }
    }
}

/// The header check: gas used may not exceed the gas limit.
pub open spec fn header_check(h: Header) -> Result<(), ValidationError> {
    if h.gas_used > h.gas_limit {
        Err(ValidationError::GasUsedExceedsLimit)
    } else {
        Ok(())
    }
}

/// Whether the receipts' cumulative gas never decreases.
pub open spec fn cumulative_gas_monotonic(receipts: Seq<Receipt>) -> bool {
    forall|i: int|
        1 <= i < receipts.len() ==> receipts[i - 1].cumulative_gas_used
            <= #[trigger] receipts[i].cumulative_gas_used
}

/// The structural checks of a block, in the order they are applied. A block
/// without receipts is a pre-execution block and is only held to its header.
pub open spec fn block_check(b: Block) -> Result<(), ValidationError> {
    let receipts = b.receipts@;
    if header_check(b.header) is Err {
        header_check(b.header)
    } else if receipts.len() == 0 {
        Ok(())
    } else if receipts.len() != b.transactions@.len() {
        Err(ValidationError::ReceiptCountMismatch)
    } else if !cumulative_gas_monotonic(receipts) {
        Err(ValidationError::ReceiptCumulativeGasNotMonotonic)
    } else if receipts.last().cumulative_gas_used != b.header.gas_used {
        Err(ValidationError::ReceiptFinalGasUsedMismatch)
    } else {
        Ok(())
    }
}

impl Header {
    /// Checks that the header's gas used fits its gas limit.
    pub fn validate_basic(&self) -> (r: Result<(), ValidationError>)
        ensures
            r == header_check(*self),
    {
        if self.gas_used > self.gas_limit {
            return Err(ValidationError::GasUsedExceedsLimit);
        }
        Ok(())
    }
}

/// A block: header, transactions and (after execution) their receipts.
#[derive(Debug, Clone, PartialEq, Eq)]
pub struct Block {
    pub header: Header,
    pub transactions: Vec<Transaction>,
    pub receipts: Vec<Receipt>,
}

impl Block {
    /// Applies the structural checks of `block_check`: the header first, then,
    /// when receipts are present, one receipt per transaction, non-decreasing
    /// cumulative gas, and a final cumulative gas equal to the header's.
    pub fn validate_basic(&self) -> (r: Result<(), ValidationError>)
        ensures
            r == block_check(*self),
    {
        let header_result = self.header.validate_basic();
        if header_result.is_err() {
            return header_result;
        }
        let n = self.receipts.len();
        if n == 0 {
            return Ok(());
        }
        if n != self.transactions.len() {
            return Err(ValidationError::ReceiptCountMismatch);
        }
        let mut i: usize = 1;
        while i < n
            invariant
                1 <= i <= n,
                n == self.receipts@.len(),
                n == self.transactions@.len(),
                header_check(self.header) is Ok,
                forall|j: int|
                    1 <= j < i ==> self.receipts@[j - 1].cumulative_gas_used
                        <= #[trigger] self.receipts@[j].cumulative_gas_used,
            decreases n - i,
        {
            if self.receipts[i].cumulative_gas_used < self.receipts[i - 1].cumulative_gas_used {
                assert(!cumulative_gas_monotonic(self.receipts@)) by {
                    assert(self.receipts@[i - 1].cumulative_gas_used
                        > self.receipts@[i as int].cumulative_gas_used);
                }
                return Err(ValidationError::ReceiptCumulativeGasNotMonotonic);
            }
            i = i + 1;
        }
        if self.receipts[n - 1].cumulative_gas_used != self.header.gas_used {
            return Err(ValidationError::ReceiptFinalGasUsedMismatch);
        }
        Ok(())
    }
}


/// An executed block passes its checks when its header's gas used fits its
/// gas limit, it has one receipt per transaction, the receipts' cumulative
/// gas never decreases, and the last receipt's cumulative gas is the
/// header's gas used. A final-gas refusal means the last receipt's
/// cumulative gas differs from the header's gas used, and every refusal
/// names a condition the block breaks.
pub proof fn lemma_block_check_conditions(b: Block)
    ensures
        ({
            let rs = b.receipts@;
            let n = rs.len();
            &&& (b.header.gas_used <= b.header.gas_limit && n == b.transactions@.len() && n > 0
                && (forall|i: int, j: int|
                0 <= i <= j < n ==> rs[i].cumulative_gas_used <= rs[j].cumulative_gas_used)
                && rs[n - 1].cumulative_gas_used == b.header.gas_used) ==> block_check(b) is Ok
            &&& block_check(b) == Err::<(), ValidationError>(
                ValidationError::ReceiptFinalGasUsedMismatch,
            ) ==> n > 0 && rs[n - 1].cumulative_gas_used != b.header.gas_used
            &&& block_check(b) == Err::<(), ValidationError>(ValidationError::GasUsedExceedsLimit)
                ==> b.header.gas_used > b.header.gas_limit
            &&& block_check(b) == Err::<(), ValidationError>(ValidationError::ReceiptCountMismatch)
                ==> n > 0 && n != b.transactions@.len()
            &&& block_check(b) == Err::<(), ValidationError>(
                ValidationError::ReceiptCumulativeGasNotMonotonic,
            ) ==> exists|i: int|
                1 <= i < n && rs[i - 1].cumulative_gas_used > #[trigger] rs[i].cumulative_gas_used
            &&& n == 0 ==> (block_check(b) is Ok <==> b.header.gas_used <= b.header.gas_limit)
            &&& (block_check(b) is Ok && n > 0) ==> {
                &&& b.header.gas_used <= b.header.gas_limit
                &&& n == b.transactions@.len()
                &&& forall|i: int, j: int|
                    0 <= i <= j < n ==> rs[i].cumulative_gas_used <= rs[j].cumulative_gas_used
                &&& rs[n - 1].cumulative_gas_used == b.header.gas_used
            }
        }),
{
    let rs = b.receipts@;
    let n = rs.len();
    if n > 0 {
        assert(rs.last() == rs[n - 1]);
    }
    if block_check(b) == Err::<(), ValidationError>(
        ValidationError::ReceiptCumulativeGasNotMonotonic,
    ) {
        assert(!cumulative_gas_monotonic(rs));
    }
    if block_check(b) is Ok && n > 0 {
        lemma_monotonic_pairs(rs);
    }
    if b.header.gas_used <= b.header.gas_limit && n == b.transactions@.len() && n > 0 && (forall|
        i: int,
        j: int,
    | 0 <= i <= j < n ==> rs[i].cumulative_gas_used <= rs[j].cumulative_gas_used) {
        assert forall|i: int| 1 <= i < n implies rs[i - 1].cumulative_gas_used
            <= #[trigger] rs[i].cumulative_gas_used by {
            assert(0 <= i - 1 <= i < n);
        }
    }
}


proof fn lemma_monotonic_pairs(rs: Seq<Receipt>)
    requires
        cumulative_gas_monotonic(rs),
    ensures
        forall|i: int, j: int|
            0 <= i <= j < rs.len() ==> rs[i].cumulative_gas_used <= rs[j].cumulative_gas_used,
    decreases rs.len(),
{
    if rs.len() > 0 {
        let p = rs.drop_last();
        assert forall|i: int| 1 <= i < p.len() implies p[i - 1].cumulative_gas_used
            <= #[trigger] p[i].cumulative_gas_used by {
            assert(p[i] == rs[i] && p[i - 1] == rs[i - 1]);
        }
        lemma_monotonic_pairs(p);
        assert forall|i: int, j: int| 0 <= i <= j < rs.len() implies rs[i].cumulative_gas_used
            <= rs[j].cumulative_gas_used by {
            if j < rs.len() - 1 {
                assert(rs[i] == p[i] && rs[j] == p[j]);
            } else if i < j {
                assert(rs[i] == p[i] && rs[j - 1] == p[j - 1]);
                assert(rs[j - 1].cumulative_gas_used <= rs[j].cumulative_gas_used);
            }
        }
    }
}

} // verus!
