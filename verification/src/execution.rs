//! Block execution: the engine interface and a scaffold engine that charges a
//! fixed intrinsic gas per transaction.

use vstd::prelude::*;
use vstd::std_specs::convert::FromSpecImpl;

use crate::digest::{tx_digest, tx_digest_of};
use crate::keys::{be_byte, Hash32};
use crate::state::{
    apply_tx_result, apply_txs_result, state_error_text, AccountsMap, StateError, StateStore,
};
use crate::text::{digits_of, push_digits};
use crate::types::{block_check, validation_error_text, Block, Receipt, Transaction, ValidationError};

verus! {

/// The gas accounting of one executed transaction.
#[derive(Debug, Clone, Copy, PartialEq, Eq)]
pub struct TxExecutionResult {
    pub tx_index: usize,
    pub gas_used: u64,
    pub cumulative_gas_used: u64,
    pub success: bool,
}

/// The output of executing a block.
#[derive(Debug, Clone, PartialEq, Eq)]
pub struct BlockExecutionResult {
    pub tx_results: Vec<TxExecutionResult>,
    pub receipts: Vec<Receipt>,
    pub total_gas_used: u64,
}

/// Why block execution stopped.
#[derive(Debug, Clone, PartialEq, Eq)]
pub enum ExecutionError {
    InvalidBlock(ValidationError),
    State(StateError),
    TxGasLimitTooLow { tx_gas_limit: u64, required: u64, tx_index: usize },
    GasOverflow { cumulative_gas: u64, gas_used: u64, tx_index: usize },
    GasLimitExceeded { gas_limit: u64, attempted: u64, tx_index: usize },
}

/// The message of an execution error.
pub open spec fn execution_error_text(e: ExecutionError) -> Seq<char> {
    match e {
        ExecutionError::InvalidBlock(err) => "invalid block: "@ + validation_error_text(err),
        ExecutionError::State(err) => "state transition error: "@ + state_error_text(err),
        ExecutionError::TxGasLimitTooLow { tx_gas_limit, required, tx_index } =>
            "transaction gas limit too low at tx index "@ + digits_of(tx_index as nat, 10)
            + ": tx_gas_limit="@ + digits_of(tx_gas_limit as nat, 10) + ", required="@ + digits_of(
            required as nat,
            10,
        ),
        ExecutionError::GasOverflow { cumulative_gas, gas_used, tx_index } =>
            "cumulative gas overflow at tx index "@ + digits_of(tx_index as nat, 10)
            + ": cumulative_gas="@ + digits_of(cumulative_gas as nat, 10) + ", gas_used="@
            + digits_of(gas_used as nat, 10),
        ExecutionError::GasLimitExceeded { gas_limit, attempted, tx_index } =>
            "block gas limit exceeded at tx index "@ + digits_of(tx_index as nat, 10)
            + ": attempted="@ + digits_of(attempted as nat, 10) + ", gas_limit="@ + digits_of(
            gas_limit as nat,
            10,
        ),
    }
}

impl ExecutionError {
    /// The error's message.
    pub fn message(&self) -> (r: String)
        ensures
            r@ == execution_error_text(*self),
    {
        match self {
            ExecutionError::InvalidBlock(err) => {
                let mut out = String::from_str("invalid block: ");
                let text = err.message();
                out.append(text.as_str());
                out
            },
            ExecutionError::State(err) => {
                let mut out = String::from_str("state transition error: ");
                let text = err.message();
                out.append(text.as_str());
                out
            },
            ExecutionError::TxGasLimitTooLow { tx_gas_limit, required, tx_index } => {
                let mut out = String::from_str("transaction gas limit too low at tx index ");
                push_digits(&mut out, *tx_index as u128, 10);
                out.append(": tx_gas_limit=");
                push_digits(&mut out, *tx_gas_limit as u128, 10);
                out.append(", required=");
                push_digits(&mut out, *required as u128, 10);
                out
            },
            ExecutionError::GasOverflow { cumulative_gas, gas_used, tx_index } => {
                let mut out = String::from_str("cumulative gas overflow at tx index ");
                push_digits(&mut out, *tx_index as u128, 10);
                out.append(": cumulative_gas=");
                push_digits(&mut out, *cumulative_gas as u128, 10);
                out.append(", gas_used=");
                push_digits(&mut out, *gas_used as u128, 10);
                out
            },
            ExecutionError::GasLimitExceeded { gas_limit, attempted, tx_index } => {
                let mut out = String::from_str("block gas limit exceeded at tx index ");
                push_digits(&mut out, *tx_index as u128, 10);
                out.append(": attempted=");
                push_digits(&mut out, *attempted as u128, 10);
                out.append(", gas_limit=");
                push_digits(&mut out, *gas_limit as u128, 10);
                out
            },
        }
    }
}

impl From<ValidationError> for ExecutionError {
    fn from(err: ValidationError) -> (r: ExecutionError)
        ensures
            r == ExecutionError::InvalidBlock(err),
    {
        ExecutionError::InvalidBlock(err)
    }
}

impl FromSpecImpl<ValidationError> for ExecutionError {
    open spec fn obeys_from_spec() -> bool {
        true
    }

    open spec fn from_spec(err: ValidationError) -> ExecutionError {
        ExecutionError::InvalidBlock(err)
    }
}

impl From<StateError> for ExecutionError {
    fn from(err: StateError) -> (r: ExecutionError)
        ensures
            r == ExecutionError::State(err),
    {
        ExecutionError::State(err)
    }
}

impl FromSpecImpl<StateError> for ExecutionError {
    open spec fn obeys_from_spec() -> bool {
        true
    }

    open spec fn from_spec(err: StateError) -> ExecutionError {
        ExecutionError::State(err)
    }
}

/// An execution backend.
pub trait ExecutionEngine {
    /// Executes `block` against `state`.
    fn execute_block(&self, state: &mut dyn StateStore, block: &Block) -> Result<
        BlockExecutionResult,
        ExecutionError,
    >;
}

/// The receipt hash of a transaction: its sender, its nonce (big-endian) and
/// the low 32 bits of its content digest (big-endian).
pub open spec fn receipt_hash_of(tx: Transaction) -> Seq<u8> {
    Seq::new(
        32,
        |i: int|
            if i < 20 {
                tx.spec_from()[i]
            } else if i < 28 {
                be_byte(tx.spec_nonce(), i - 20)
            } else {
                be_byte(tx_digest_of(tx), i - 24)
            },
    )
}

/// The receipt hash of `tx`.
pub fn receipt_tx_hash(tx: &Transaction) -> (r: Hash32)
    ensures
        r@ == receipt_hash_of(*tx),
{
    let from = tx.from();
    let nonce = tx.nonce();
    let digest = tx_digest(tx);
    let mut out = [0u8; 32];
    let mut i: usize = 0;
    while i < 32
        invariant
            i <= 32,
            from == tx.spec_from(),
            nonce == tx.spec_nonce(),
            digest == tx_digest_of(*tx),
            forall|j: int| 0 <= j < i ==> out[j] == receipt_hash_of(*tx)[j],
        decreases 32 - i,
    {
        let b: u8 = if i < 20 {
            from[i]
        } else if i < 28 {
            let shift: u64 = 56 - 8 * (i as u64 - 20);
            #[verifier::truncate]
            (((nonce >> shift) & 0xff) as u8)
        } else {
            let shift: u64 = 56 - 8 * (i as u64 - 24);
            #[verifier::truncate]
            (((digest >> shift) & 0xff) as u8)
        };
        assert(b == receipt_hash_of(*tx)[i as int]);
        out[i] = b;
        i = i + 1;
    }
    assert(out@ =~= receipt_hash_of(*tx));
    out
}

/// State and outcome of executing `txs` from position `i` with `cumulative`
/// gas already used: each transaction must afford the intrinsic gas `base`,
/// the running total must not overflow nor pass `gas_limit`, and its state
/// transition must succeed; the first failure ends execution, keeping the
/// effects of the transactions before it.
pub open spec fn execute_txs_result(
    base: u64,
    gas_limit: u64,
    m: AccountsMap,
    txs: Seq<Transaction>,
    i: int,
    cumulative: u64,
) -> (AccountsMap, Result<u64, ExecutionError>)
    decreases txs.len() - i,
{
    if i < 0 || i >= txs.len() {
        (m, Ok(cumulative))
    } else {
        let tx = txs[i];
        if tx.spec_gas_limit() < base {
            (
                m,
                Err(
                    ExecutionError::TxGasLimitTooLow {
                        tx_gas_limit: tx.spec_gas_limit(),
                        required: base,
                        tx_index: i as usize,
                    },
                ),
            )
        } else if cumulative + base > u64::MAX {
            (
                m,
                Err(
                    ExecutionError::GasOverflow {
                        cumulative_gas: cumulative,
                        gas_used: base,
                        tx_index: i as usize,
                    },
                ),
            )
        } else if cumulative + base > gas_limit {
            (
                m,
                Err(
                    ExecutionError::GasLimitExceeded {
                        gas_limit,
                        attempted: (cumulative + base) as u64,
                        tx_index: i as usize,
                    },
                ),
            )
        } else {
            let (m1, r) = apply_tx_result(m, tx);
            match r {
                Err(e) => (m1, Err(ExecutionError::State(e))),
                Ok(_) => execute_txs_result(
                    base,
                    gas_limit,
                    m1,
                    txs,
                    i + 1,
                    (cumulative + base) as u64,
                ),
            }
        }
    }
}

/// State and outcome of executing a block: refused unchanged when its
/// structural checks fail, else its transactions executed in order.
pub open spec fn execute_block_result(base: u64, m: AccountsMap, block: Block) -> (
    AccountsMap,
    Result<u64, ExecutionError>,
) {
    match block_check(block) {
        Err(e) => (m, Err(ExecutionError::InvalidBlock(e))),
        Ok(_) => execute_txs_result(base, block.header.gas_limit, m, block.transactions@, 0, 0),
    }
}

/// The record of the `i`-th executed transaction under intrinsic gas `base`.
pub open spec fn tx_result_at(base: u64, i: int) -> TxExecutionResult {
    TxExecutionResult {
        tx_index: i as usize,
        gas_used: base,
        cumulative_gas_used: ((i + 1) * base) as u64,
        success: true,
    }
}

/// Whether `receipt` is the receipt of `tx` executed at position `i`.
pub open spec fn receipt_matches(receipt: Receipt, base: u64, tx: Transaction, i: int) -> bool {
    &&& receipt.tx_hash@ == receipt_hash_of(tx)
    &&& receipt.success
    &&& receipt.cumulative_gas_used == (i + 1) * base
    &&& receipt.logs@.len() == 0
}

/// Whether `out` records the successful execution of `txs` for `total` gas.
pub open spec fn output_matches(
    out: BlockExecutionResult,
    base: u64,
    txs: Seq<Transaction>,
    total: u64,
) -> bool {
    &&& out.total_gas_used == total
    &&& total == txs.len() * base
    &&& out.tx_results@.len() == txs.len()
    &&& out.receipts@.len() == txs.len()
    &&& forall|i: int| 0 <= i < txs.len() ==> #[trigger] out.tx_results@[i] == tx_result_at(base, i)
    &&& forall|i: int|
        0 <= i < txs.len() ==> receipt_matches(#[trigger] out.receipts@[i], base, txs[i], i)
}

/// The scaffold engine: every transaction costs `base_gas_per_tx`.
#[derive(Debug, Clone)]
pub struct SimpleExecutionEngine {
    pub base_gas_per_tx: u64,
}

impl Default for SimpleExecutionEngine {
    fn default() -> (r: SimpleExecutionEngine)
        ensures
            r.base_gas_per_tx == 21_000,
    {
        SimpleExecutionEngine { base_gas_per_tx: 21_000 }
    }
}

impl SimpleExecutionEngine {
    /// An engine charging `base_gas_per_tx` per transaction.
    pub fn new(base_gas_per_tx: u64) -> (r: SimpleExecutionEngine)
        ensures
            r.base_gas_per_tx == base_gas_per_tx,
    {
        SimpleExecutionEngine { base_gas_per_tx }
    }

    fn gas_for_transaction(&self) -> (r: u64)
        ensures
            r == self.base_gas_per_tx,
    {
        self.base_gas_per_tx
    }
}

proof fn lemma_next_cumulative(i: int, base: u64)
    requires
        0 <= i,
    ensures
        i * base + base == (i + 1) * base,
{
    assert(i * base + base == (i + 1) * base) by (nonlinear_arith);
}

impl SimpleExecutionEngine {
    /// Executes `block` against `state` as `execute_block_result` states:
    /// the block is checked first; then each transaction, in order, must
    /// afford the intrinsic gas, keep the running total within `u64` and the
    /// block gas limit, and apply; the first failure ends execution, keeping
    /// the effects of the transactions before it.
    pub fn execute_block_in<S: StateStore + ?Sized>(&self, state: &mut S, block: &Block) -> (r: Result<
        BlockExecutionResult,
        ExecutionError,
    >)
        ensures
            final(state).accounts() == execute_block_result(
                self.base_gas_per_tx,
                old(state).accounts(),
                *block,
            ).0,
            match execute_block_result(self.base_gas_per_tx, old(state).accounts(), *block).1 {
                Err(e) => r == Err::<BlockExecutionResult, ExecutionError>(e),
                Ok(total) => r matches Ok(out) && output_matches(
                    out,
                    self.base_gas_per_tx,
                    block.transactions@,
                    total,
                ),
            },
    {
        let checked = block.validate_basic();
        match checked {
            Err(e) => {
                return Err(ExecutionError::InvalidBlock(e));
            },
            Ok(_) => {},
        }
        let base = self.gas_for_transaction();
        let n = block.transactions.len();
        let ghost txs = block.transactions@;
        let ghost goal = execute_block_result(base, old(state).accounts(), *block);
        let mut cumulative_gas: u64 = 0;
        let mut tx_results: Vec<TxExecutionResult> = Vec::new();
        let mut receipts: Vec<Receipt> = Vec::new();
        let mut index: usize = 0;
        assert(0 * base == 0) by (nonlinear_arith);
        while index < n
            invariant
                index <= n,
                n == txs.len(),
                txs == block.transactions@,
                base == self.base_gas_per_tx,
                cumulative_gas == index * base,
                goal == execute_block_result(base, old(state).accounts(), *block),
                goal == execute_txs_result(
                    base,
                    block.header.gas_limit,
                    state.accounts(),
                    txs,
                    index as int,
                    cumulative_gas,
                ),
                tx_results@.len() == index,
                receipts@.len() == index,
                forall|i: int| 0 <= i < index ==> #[trigger] tx_results@[i] == tx_result_at(base, i),
                forall|i: int|
                    0 <= i < index ==> receipt_matches(#[trigger] receipts@[i], base, txs[i], i),
            decreases n - index,
        {
            let tx = &block.transactions[index];
            let gas_used = base;
            if tx.gas_limit() < gas_used {
                return Err(
                    ExecutionError::TxGasLimitTooLow {
                        tx_gas_limit: tx.gas_limit(),
                        required: gas_used,
                        tx_index: index,
                    },
                );
            }
            let attempted = match cumulative_gas.checked_add(gas_used) {
                Some(sum) => sum,
                None => {
                    return Err(
                        ExecutionError::GasOverflow {
                            cumulative_gas,
                            gas_used,
                            tx_index: index,
                        },
                    );
                },
            };
            if attempted > block.header.gas_limit {
                return Err(
                    ExecutionError::GasLimitExceeded {
                        gas_limit: block.header.gas_limit,
                        attempted,
                        tx_index: index,
                    },
                );
            }
            let applied = state.apply_transaction(tx);
            match applied {
                Err(e) => {
                    return Err(ExecutionError::State(e));
                },
                Ok(_) => {},
            }
            proof {
                lemma_next_cumulative(index as int, base);
            }
            cumulative_gas = attempted;
            tx_results.push(
                TxExecutionResult {
                    tx_index: index,
                    gas_used,
                    cumulative_gas_used: cumulative_gas,
                    success: true,
                },
            );
            let receipt = Receipt {
                tx_hash: receipt_tx_hash(tx),
                success: true,
                cumulative_gas_used: cumulative_gas,
                logs: Vec::new(),
            };
            receipts.push(receipt);
            index = index + 1;
        }
        Ok(BlockExecutionResult { tx_results, receipts, total_gas_used: cumulative_gas })
    }
}

impl ExecutionEngine for SimpleExecutionEngine {
    fn execute_block(&self, state: &mut dyn StateStore, block: &Block) -> (r: Result<
        BlockExecutionResult,
        ExecutionError,
    >)
        ensures
            final(state).accounts() == execute_block_result(
                self.base_gas_per_tx,
                old(state).accounts(),
                *block,
            ).0,
            match execute_block_result(self.base_gas_per_tx, old(state).accounts(), *block).1 {
                Err(e) => r == Err::<BlockExecutionResult, ExecutionError>(e),
                Ok(total) => r matches Ok(out) && output_matches(
                    out,
                    self.base_gas_per_tx,
                    block.transactions@,
                    total,
                ),
            },
    {
        self.execute_block_in(state, block)
    }
}

} // verus!

verus! {

/// The position of the transaction at which execution stopped, for errors
/// raised while executing transactions.
pub open spec fn failing_index(e: ExecutionError) -> Option<int> {
    match e {
        ExecutionError::InvalidBlock(_) => None,
        ExecutionError::State(_) => None,
        ExecutionError::TxGasLimitTooLow { tx_index, .. } => Some(tx_index as int),
        ExecutionError::GasOverflow { tx_index, .. } => Some(tx_index as int),
        ExecutionError::GasLimitExceeded { tx_index, .. } => Some(tx_index as int),
    }
}

/// Whether `post` is the state after applying, all accepted, the
/// transactions of `txs` from `i` to before `j`.
pub open spec fn post_is_prefix(
    m: AccountsMap,
    txs: Seq<Transaction>,
    i: int,
    j: int,
    post: AccountsMap,
) -> bool {
    &&& i <= j < txs.len()
    &&& apply_txs_result(m, txs.subrange(i, j)).1 is Ok
    &&& post == apply_txs_result(m, txs.subrange(i, j)).0
}

/// What executing transactions from `i` with `cumulative` gas used amounts to.
pub open spec fn execution_prefix_claim(
    base: u64,
    gas_limit: u64,
    m: AccountsMap,
    txs: Seq<Transaction>,
    i: int,
    cumulative: u64,
) -> bool {
    let (post, r) = execute_txs_result(base, gas_limit, m, txs, i, cumulative);
    match r {
        Ok(total) => {
            &&& apply_txs_result(m, txs.skip(i)) == (post, Ok::<(), StateError>(()))
            &&& total <= gas_limit || i == txs.len()
            &&& total >= cumulative
        },
        Err(e) => exists|j: int|
            #[trigger] post_is_prefix(m, txs, i, j, post) && (failing_index(e) is Some
                ==> failing_index(e) == Some(j)),
    }
}

/// Executing transactions from `i` either succeeds with the state that
/// applying them gives, or stops at some `j` with the state that applying
/// those before `j` (all accepted) gives.
proof fn lemma_execution_applies_prefix(
    base: u64,
    gas_limit: u64,
    m: AccountsMap,
    txs: Seq<Transaction>,
    i: int,
    cumulative: u64,
)
    requires
        0 <= i <= txs.len(),
        txs.len() <= usize::MAX,
    ensures
        execution_prefix_claim(base, gas_limit, m, txs, i, cumulative),
    decreases txs.len() - i,
{
    if i == txs.len() {
        assert(txs.skip(i).len() == 0);
    } else {
        let tx = txs[i];
        assert(txs.subrange(i, i).len() == 0);
        assert(apply_txs_result(m, txs.subrange(i, i)) == (m, Ok::<(), StateError>(())));
        if tx.spec_gas_limit() < base || cumulative + base > u64::MAX || cumulative + base
            > gas_limit {
            assert(post_is_prefix(m, txs, i, i, m));
        } else {
            let (m1, r) = apply_tx_result(m, tx);
            if r is Err {
                assert(m1 == m);
                assert(post_is_prefix(m, txs, i, i, m1));
            } else {
                let c1 = (cumulative + base) as u64;
                lemma_execution_applies_prefix(base, gas_limit, m1, txs, i + 1, c1);
                assert(txs.skip(i)[0] == tx);
                assert(txs.skip(i).drop_first() =~= txs.skip(i + 1));
                let (post, r2) = execute_txs_result(base, gas_limit, m1, txs, i + 1, c1);
                match r2 {
                    Ok(total) => {
                        if i + 1 == txs.len() {
                            assert(execute_txs_result(base, gas_limit, m1, txs, i + 1, c1) == (
                                m1,
                                Ok::<u64, ExecutionError>(c1),
                            ));
                        }
                    },
                    Err(e) => {
                        let j = choose|j: int|
                            #[trigger] post_is_prefix(m1, txs, i + 1, j, post) && (failing_index(
                                e,
                            ) is Some ==> failing_index(e) == Some(j));
                        assert(txs.subrange(i, j)[0] == tx);
                        assert(txs.subrange(i, j).drop_first() =~= txs.subrange(i + 1, j));
                        assert(post_is_prefix(m, txs, i, j, post));
                    },
                }
            }
        }
    }
}

/// A block refused by its structural checks changes no account.
pub proof fn lemma_invalid_block_changes_nothing(base: u64, m: AccountsMap, block: Block)
    requires
        block_check(block) is Err,
    ensures
        execute_block_result(base, m, block).0 == m,
        execute_block_result(base, m, block).1 == Err::<u64, ExecutionError>(
            ExecutionError::InvalidBlock(block_check(block)->Err_0),
        ),
{
}

/// A block that executes has the state effect of applying its transactions,
/// all of which are accepted, and uses no more gas than its header allows.
pub proof fn lemma_executed_block_applies_all_transactions(base: u64, m: AccountsMap, block: Block)
    requires
        execute_block_result(base, m, block).1 is Ok,
    ensures
        apply_txs_result(m, block.transactions@) == (
            execute_block_result(base, m, block).0,
            Ok::<(), StateError>(()),
        ),
        execute_block_result(base, m, block).1->Ok_0 <= block.header.gas_limit,
{
    assert(block.transactions@.len() == block.transactions.len());
    lemma_execution_applies_prefix(base, block.header.gas_limit, m, block.transactions@, 0, 0);
    assert(block.transactions@.skip(0) =~= block.transactions@);
}

/// A block whose execution stops at transaction `j` leaves the state that
/// applying the transactions before `j` (all accepted) gives.
pub proof fn lemma_failed_block_keeps_prior_transactions(base: u64, m: AccountsMap, block: Block)
    requires
        block_check(block) is Ok,
        execute_block_result(base, m, block).1 is Err,
    ensures
        exists|j: int|
            {
                &&& 0 <= j < block.transactions@.len()
                &&& apply_txs_result(m, block.transactions@.take(j)).1 is Ok
                &&& execute_block_result(base, m, block).0 == apply_txs_result(
                    m,
                    block.transactions@.take(j),
                ).0
                &&& (failing_index(execute_block_result(base, m, block).1->Err_0) is Some
                    ==> failing_index(execute_block_result(base, m, block).1->Err_0) == Some(j))
            },
{
    let txs = block.transactions@;
    assert(txs.len() == block.transactions.len());
    lemma_execution_applies_prefix(base, block.header.gas_limit, m, txs, 0, 0);
    let e = execute_block_result(base, m, block).1->Err_0;
    let post = execute_block_result(base, m, block).0;
    let j = choose|j: int|
        #[trigger] post_is_prefix(m, txs, 0, j, post) && (failing_index(e) is Some
            ==> failing_index(e) == Some(j));
    assert(txs.subrange(0, j) =~= txs.take(j));
}

proof fn lemma_state_failure_at(
    base: u64,
    gas_limit: u64,
    m: AccountsMap,
    txs: Seq<Transaction>,
    i: int,
    cumulative: u64,
    se: StateError,
) -> (j: int)
    requires
        0 <= i <= txs.len(),
        execute_txs_result(base, gas_limit, m, txs, i, cumulative).1 == Err::<u64, ExecutionError>(
            ExecutionError::State(se),
        ),
    ensures
        i <= j < txs.len(),
        apply_txs_result(m, txs.subrange(i, j)).1 is Ok,
        apply_tx_result(apply_txs_result(m, txs.subrange(i, j)).0, txs[j]) == (
            execute_txs_result(base, gas_limit, m, txs, i, cumulative).0,
            Err::<(), StateError>(se),
        ),
    decreases txs.len() - i,
{
    assert(i < txs.len());
    let (m1, r) = apply_tx_result(m, txs[i]);
    assert(txs.subrange(i, i) =~= Seq::<Transaction>::empty());
    if r is Err {
        i
    } else {
        let j = lemma_state_failure_at(
            base,
            gas_limit,
            m1,
            txs,
            i + 1,
            (cumulative + base) as u64,
            se,
        );
        let s = txs.subrange(i, j);
        assert(s[0] == txs[i]);
        assert(s.drop_first() =~= txs.subrange(i + 1, j));
        j
    }
}

/// A block refused by a state transition is refused with the failing
/// transaction's own refusal: the transactions before it apply, and applying
/// it to the state they leave gives the block's final state and that error.
pub proof fn lemma_state_failure_is_the_transactions_refusal(
    base: u64,
    m: AccountsMap,
    block: Block,
    se: StateError,
)
    requires
        execute_block_result(base, m, block).1 == Err::<u64, ExecutionError>(
            ExecutionError::State(se),
        ),
    ensures
        exists|j: int|
            {
                &&& 0 <= j < block.transactions@.len()
                &&& apply_txs_result(m, block.transactions@.take(j)).1 is Ok
                &&& #[trigger] apply_tx_result(
                    apply_txs_result(m, block.transactions@.take(j)).0,
                    block.transactions@[j],
                ) == (execute_block_result(base, m, block).0, Err::<(), StateError>(se))
            },
{
    let txs = block.transactions@;
    let j = lemma_state_failure_at(base, block.header.gas_limit, m, txs, 0, 0, se);
    assert(txs.subrange(0, j) =~= txs.take(j));
    assert(apply_tx_result(apply_txs_result(m, txs.take(j)).0, txs[j]) == (
        execute_block_result(base, m, block).0,
        Err::<(), StateError>(se),
    ));
}

/// Executing the same block from the same accounts gives the same state and
/// the same outcome.
pub proof fn lemma_execution_is_deterministic(
    base: u64,
    m1: AccountsMap,
    m2: AccountsMap,
    block: Block,
)
    requires
        m1 == m2,
    ensures
        execute_block_result(base, m1, block) == execute_block_result(base, m2, block),
{
}


/// A receipt's transaction hash depends on the transaction alone: the same
/// transaction gets the same hash in any block and at any position.
pub proof fn lemma_receipt_hash_is_position_independent(
    out1: BlockExecutionResult,
    txs1: Seq<Transaction>,
    total1: u64,
    out2: BlockExecutionResult,
    txs2: Seq<Transaction>,
    total2: u64,
    base: u64,
    i: int,
    j: int,
)
    requires
        output_matches(out1, base, txs1, total1),
        output_matches(out2, base, txs2, total2),
        0 <= i < txs1.len(),
        0 <= j < txs2.len(),
        txs1[i] == txs2[j],
    ensures
        out1.receipts@[i].tx_hash == out2.receipts@[j].tx_hash,
{
    assert(receipt_matches(out1.receipts@[i], base, txs1[i], i));
    assert(receipt_matches(out2.receipts@[j], base, txs2[j], j));
    assert(out1.receipts@[i].tx_hash =~= out2.receipts@[j].tx_hash);
}

} // verus!
