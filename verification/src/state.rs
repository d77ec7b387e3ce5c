//! Account state: the `StateStore` interface with its transfer and
//! transaction-application semantics, and an in-memory backend.

use std::collections::BTreeMap;
use vstd::prelude::*;

use crate::keys::{
    address_from_key, address_key, address_key_of, slot_key, slot_key_of, sorted_address_keys,
    sorted_keys_of_map, Address, AddressKey, SlotKey,
};
use crate::types::Transaction;
use crate::text::{byte_array_text, digits_of, push_byte_array, push_digits};

verus! {

/// A storage slot identifier.
pub type StorageKey = [u8; 32];

/// A storage slot value.
pub type StorageValue = [u8; 32];

/// The abstract content of an account.
pub struct AccountView {
    pub nonce: u64,
    pub balance: u128,
    pub code: Seq<u8>,
    pub storage: Map<SlotKey, StorageValue>,
}

/// The account that a never-written address reads as.
pub open spec fn empty_account() -> AccountView {
    AccountView { nonce: 0, balance: 0, code: Seq::empty(), storage: Map::empty() }
}

/// The storage of one account, keyed by slot.
#[derive(Debug, PartialEq, Eq)]
pub struct AccountStorage {
    slots: BTreeMap<SlotKey, StorageValue>,
}

impl View for AccountStorage {
    type V = Map<SlotKey, StorageValue>;

    closed spec fn view(&self) -> Map<SlotKey, StorageValue> {
        self.slots@
    }
}

impl AccountStorage {
    /// Empty storage.
    pub fn new() -> (r: AccountStorage)
        ensures
            r@ == Map::<SlotKey, StorageValue>::empty(),
    {
        AccountStorage { slots: BTreeMap::new() }
    }

    /// Writes `value` at `key`; returns the value it replaced.
    pub fn insert(&mut self, key: StorageKey, value: StorageValue) -> (r: Option<StorageValue>)
        ensures
            final(self)@ == old(self)@.insert(slot_key_of(key), value),
            r == (if old(self)@.contains_key(slot_key_of(key)) {
                Some(old(self)@[slot_key_of(key)])
            } else {
                None
            }),
    {
        self.slots.insert(slot_key(&key), value)
    }

    /// Reads the value at `key`.
    pub fn get(&self, key: &StorageKey) -> (r: Option<&StorageValue>)
        ensures
            r == (if self@.contains_key(slot_key_of(*key)) {
                Some(&self@[slot_key_of(*key)])
            } else {
                None
            }),
    {
        self.slots.get(&slot_key(key))
    }

    /// Number of written slots.
    pub fn len(&self) -> (r: usize)
        ensures
            r == self@.len(),
    {
        self.slots.len()
    }

    /// Whether no slot is written.
    pub fn is_empty(&self) -> (r: bool)
        ensures
            r == (self@.len() == 0),
    {
        self.slots.len() == 0
    }
}

impl Clone for AccountStorage {
    fn clone(&self) -> (r: AccountStorage)
        ensures
            r@ == self@,
    {
        AccountStorage { slots: self.slots.clone() }
    }
}

impl Default for AccountStorage {
    fn default() -> (r: AccountStorage)
        ensures
            r@ == Map::<SlotKey, StorageValue>::empty(),
    {
        AccountStorage::new()
    }
}

/// An account: nonce, balance, code and storage.
#[derive(Debug, PartialEq, Eq)]
pub struct Account {
    pub nonce: u64,
    pub balance: u128,
    pub code: Vec<u8>,
    pub storage: AccountStorage,
}

impl View for Account {
    type V = AccountView;

    open spec fn view(&self) -> AccountView {
        AccountView {
            nonce: self.nonce,
            balance: self.balance,
            code: self.code@,
            storage: self.storage@,
        }
    }
}

fn copy_bytes(v: &Vec<u8>) -> (r: Vec<u8>)
    ensures
        r@ == v@,
{
    let mut out: Vec<u8> = Vec::new();
    let mut i: usize = 0;
    while i < v.len()
        invariant
            i <= v@.len(),
            out@ == v@.take(i as int),
        decreases v@.len() - i,
    {
        out.push(v[i]);
        i = i + 1;
        assert(out@ =~= v@.take(i as int));
    }
    assert(v@.take(v@.len() as int) =~= v@);
    out
}

impl Clone for Account {
    fn clone(&self) -> (r: Account)
        ensures
            r@ == self@,
    {
        Account {
            nonce: self.nonce,
            balance: self.balance,
            code: copy_bytes(&self.code),
            storage: self.storage.clone(),
        }
    }
}

impl Default for Account {
    fn default() -> (r: Account)
        ensures
            r@ == empty_account(),
    {
        let r = Account { nonce: 0, balance: 0, code: Vec::new(), storage: AccountStorage::new() };
        assert(r@.code =~= Seq::<u8>::empty());
        r
    }
}

/// Why a state transition was refused.
#[derive(Debug, Clone, PartialEq, Eq)]
pub enum StateError {
    InsufficientBalance { address: Address, available: u128, requested: u128 },
}

/// The message of a state error.
pub open spec fn state_error_text(e: StateError) -> Seq<char> {
    match e {
        StateError::InsufficientBalance { address, available, requested } => "insufficient balance for "@
            + byte_array_text(address@) + ": available="@ + digits_of(available as nat, 10)
            + ", requested="@ + digits_of(requested as nat, 10),
    }
}

impl StateError {
    /// The error's message.
    pub fn message(&self) -> (r: String)
        ensures
            r@ == state_error_text(*self),
    {
        match self {
            StateError::InsufficientBalance { address, available, requested } => {
                let mut out = String::from_str("insufficient balance for ");
                push_byte_array(&mut out, address.as_slice());
                out.append(": available=");
                push_digits(&mut out, *available, 10);
                out.append(", requested=");
                push_digits(&mut out, *requested, 10);
                out
            },
        }
    }
}

/// The account state as a map from address key to account.
pub type AccountsMap = Map<AddressKey, AccountView>;

/// The account stored at `a`, if any.
pub open spec fn account_at(m: AccountsMap, a: Address) -> Option<AccountView> {
    if m.contains_key(address_key_of(a)) {
        Some(m[address_key_of(a)])
    } else {
        None
    }
}

/// The account stored at `a`, or the empty account.
pub open spec fn account_or_empty(m: AccountsMap, a: Address) -> AccountView {
    if m.contains_key(address_key_of(a)) {
        m[address_key_of(a)]
    } else {
        empty_account()
    }
}

/// The view of an optional account.
pub open spec fn opt_account_view(r: Option<Account>) -> Option<AccountView> {
    match r {
        Some(a) => Some(a@),
        None => None,
    }
}

/// `a + b`, clamped at `u128::MAX`.
pub open spec fn saturating_add_u128(a: u128, b: u128) -> u128 {
    if a + b > u128::MAX {
        u128::MAX
    } else {
        (a + b) as u128
    }
}

/// `n + 1`, clamped at `u64::MAX`.
pub open spec fn saturating_inc_u64(n: u64) -> u64 {
    if n == u64::MAX {
        n
    } else {
        (n + 1) as u64
    }
}

/// The sender after paying `value` (which it holds) and bumping its nonce.
pub open spec fn debited(acc: AccountView, value: u128) -> AccountView {
    AccountView { balance: (acc.balance - value) as u128, nonce: saturating_inc_u64(acc.nonce), ..acc }
}

/// The recipient after receiving `value`.
pub open spec fn credited(acc: AccountView, value: u128) -> AccountView {
    AccountView { balance: saturating_add_u128(acc.balance, value), ..acc }
}

/// The refusal of a sender that holds less than `value`.
pub open spec fn insufficient(m: AccountsMap, from: Address, value: u128) -> StateError {
    StateError::InsufficientBalance {
        address: from,
        available: account_or_empty(m, from).balance,
        requested: value,
    }
}

/// `m` after the sender pays `value`.
pub open spec fn after_debit(m: AccountsMap, from: Address, value: u128) -> AccountsMap {
    m.insert(address_key_of(from), debited(account_or_empty(m, from), value))
}

/// `m` after `to` receives `value`.
pub open spec fn after_credit(m: AccountsMap, to: Address, value: u128) -> AccountsMap {
    m.insert(address_key_of(to), credited(account_or_empty(m, to), value))
}

/// State and outcome of a value transfer: refused, with the state unchanged,
/// when the sender holds less than `value`; otherwise the sender is debited
/// and its nonce bumped, then the recipient (read after the debit) credited,
/// saturating.
pub open spec fn transfer_result(m: AccountsMap, from: Address, to: Address, value: u128) -> (
    AccountsMap,
    Result<(), StateError>,
) {
    if account_or_empty(m, from).balance < value {
        (m, Err(insufficient(m, from, value)))
    } else {
        (after_credit(after_debit(m, from, value), to, value), Ok(()))
    }
}

/// State and outcome of applying one transaction: a transfer of its value from
/// its sender to its recipient; a contract creation only debits the sender.
pub open spec fn apply_tx_result(m: AccountsMap, tx: Transaction) -> (
    AccountsMap,
    Result<(), StateError>,
) {
    let from = tx.spec_from();
    let value = tx.spec_value();
    if account_or_empty(m, from).balance < value {
        (m, Err(insufficient(m, from, value)))
    } else {
        match tx.spec_to() {
            Some(to) => (after_credit(after_debit(m, from, value), to, value), Ok(())),
            None => (after_debit(m, from, value), Ok(())),
        }
    }
}

/// State and outcome of applying transactions in order, stopping at the first
/// refusal (whose effects, none, and whose predecessors' effects remain).
pub open spec fn apply_txs_result(m: AccountsMap, txs: Seq<Transaction>) -> (
    AccountsMap,
    Result<(), StateError>,
)
    decreases txs.len(),
{
    if txs.len() == 0 {
        (m, Ok(()))
    } else {
        let (m1, r) = apply_tx_result(m, txs[0]);
        if r is Err {
            (m1, r)
        } else {
            apply_txs_result(m1, txs.drop_first())
        }
    }
}

/// The storage value at `key` of the account at `a`, if written.
pub open spec fn storage_at(m: AccountsMap, a: Address, key: StorageKey) -> Option<StorageValue> {
    let k = address_key_of(a);
    if m.contains_key(k) && m[k].storage.contains_key(slot_key_of(key)) {
        Some(m[k].storage[slot_key_of(key)])
    } else {
        None
    }
}

/// `m` after writing `value` at `key` of the account at `a` (created empty if absent).
pub open spec fn after_storage_write(
    m: AccountsMap,
    a: Address,
    key: StorageKey,
    value: StorageValue,
) -> AccountsMap {
    let acc = account_or_empty(m, a);
    m.insert(
        address_key_of(a),
        AccountView { storage: acc.storage.insert(slot_key_of(key), value), ..acc },
    )
}

/// A store of accounts and their storage.
pub trait StateStore {
    /// The accounts held, by address key.
    spec fn accounts(&self) -> AccountsMap;

    /// The account at `address`, if one is stored.
    fn get_account(&self, address: &Address) -> (r: Option<Account>)
        ensures
            opt_account_view(r) == account_at(self.accounts(), *address),
    ;

    /// Stores `account` at `address`, replacing any account there.
    fn upsert_account(&mut self, address: Address, account: Account)
        ensures
            final(self).accounts() == old(self).accounts().insert(
                address_key_of(address),
                account@,
            ),
    ;

    /// The storage value at `key` of the account at `address`.
    fn get_storage(&self, address: &Address, key: &StorageKey) -> (r: Option<StorageValue>)
        ensures
            r == storage_at(self.accounts(), *address, *key),
    ;

    /// Writes a storage value, creating an empty account first when needed.
    fn set_storage(&mut self, address: Address, key: StorageKey, value: StorageValue)
        ensures
            final(self).accounts() == after_storage_write(old(self).accounts(), address, key, value),
    ;

    /// Moves `value` from `from` to `to` as `transfer_result` states.
    fn transfer(&mut self, from: Address, to: Address, value: u128) -> (r: Result<(), StateError>)
        ensures
            final(self).accounts() == transfer_result(old(self).accounts(), from, to, value).0,
            r == transfer_result(old(self).accounts(), from, to, value).1,
    ;

    /// Applies one transaction as `apply_tx_result` states.
    fn apply_transaction(&mut self, tx: &Transaction) -> (r: Result<(), StateError>)
        ensures
            final(self).accounts() == apply_tx_result(old(self).accounts(), *tx).0,
            r == apply_tx_result(old(self).accounts(), *tx).1,
    {
        let from = tx.from();
        let value = tx.value();
        let sender = match self.get_account(&from) {
            Some(account) => account,
            None => Account::default(),
        };
        if sender.balance < value {
            return Err(
                StateError::InsufficientBalance {
                    address: from,
                    available: sender.balance,
                    requested: value,
                },
            );
        }
        let mut sender = sender;
        sender.balance = sender.balance - value;
        sender.nonce = sender.nonce.saturating_add(1);
        self.upsert_account(from, sender);

        match tx.to() {
            Some(to) => {
                let mut recipient = match self.get_account(&to) {
                    Some(account) => account,
                    None => Account::default(),
                };
                recipient.balance = recipient.balance.saturating_add(value);
                self.upsert_account(to, recipient);
            },
            None => {},
        }
        Ok(())
    }

    /// Applies transactions in order as `apply_txs_result` states.
    fn apply_transactions(&mut self, txs: &[Transaction]) -> (r: Result<(), StateError>)
        ensures
            final(self).accounts() == apply_txs_result(old(self).accounts(), txs@).0,
            r == apply_txs_result(old(self).accounts(), txs@).1,
    {
        let ghost start = self.accounts();
        let mut i: usize = 0;
        assert(txs@.skip(0) =~= txs@);
        while i < txs.len()
            invariant
                i <= txs@.len(),
                start == old(self).accounts(),
                apply_txs_result(start, txs@) == apply_txs_result(
                    self.accounts(),
                    txs@.skip(i as int),
                ),
            decreases txs@.len() - i,
        {
            let ghost before = self.accounts();
            assert(txs@.skip(i as int).drop_first() =~= txs@.skip(i + 1));
            assert(txs@.skip(i as int)[0] == txs@[i as int]);
            let r = self.apply_transaction(&txs[i]);
            if r.is_err() {
                return r;
            }
            i = i + 1;
        }
        assert(txs@.skip(i as int).len() == 0);
        Ok(())
    }
}

/// An account state held in memory.
#[derive(Debug)]
pub struct InMemoryState {
    accounts: BTreeMap<AddressKey, Account>,
}

/// The views of the accounts of a map.
pub open spec fn accounts_view(m: Map<AddressKey, Account>) -> AccountsMap {
    m.map_values(|a: Account| a@)
}

impl InMemoryState {
    /// An empty state.
    pub fn new() -> (r: InMemoryState)
        ensures
            r.accounts() == Map::<AddressKey, AccountView>::empty(),
    {
        let r = InMemoryState { accounts: BTreeMap::new() };
        assert(r.accounts() =~= Map::<AddressKey, AccountView>::empty());
        r
    }

    /// A copy of all accounts.
    pub fn snapshot(&self) -> (r: StateSnapshot)
        ensures
            r@ == self.accounts(),
    {
        StateSnapshot { accounts: self.accounts.clone() }
    }

    fn take_or_empty(&mut self, k: AddressKey) -> (r: Account)
        ensures
            final(self).accounts@ == old(self).accounts@.remove(k),
            r@ == (if old(self).accounts@.contains_key(k) {
                old(self).accounts@[k]@
            } else {
                empty_account()
            }),
    {
        match self.accounts.remove(&k) {
            Some(account) => account,
            None => Account::default(),
        }
    }

    fn put(&mut self, k: AddressKey, account: Account)
        ensures
            final(self).accounts@ == old(self).accounts@.insert(k, account),
            final(self).accounts() == old(self).accounts().insert(k, account@),
    {
        self.accounts.insert(k, account);
        assert(self.accounts() =~= old(self).accounts().insert(k, account@));
    }

    fn debit_and_bump_nonce(&mut self, address: Address, amount: u128) -> (r: Result<(), StateError>)
        ensures
            account_or_empty(old(self).accounts(), address).balance < amount ==> {
                &&& r == Err::<(), StateError>(insufficient(old(self).accounts(), address, amount))
                &&& final(self).accounts() == old(self).accounts()
            },
            account_or_empty(old(self).accounts(), address).balance >= amount ==> {
                &&& r is Ok
                &&& final(self).accounts() == after_debit(old(self).accounts(), address, amount)
            },
    {
        let k = address_key(&address);
        let available = match self.accounts.get(&k) {
            Some(account) => account.balance,
            None => 0,
        };
        if available < amount {
            return Err(
                StateError::InsufficientBalance { address, available, requested: amount },
            );
        }
        let mut account = self.take_or_empty(k);
        account.balance = account.balance - amount;
        account.nonce = account.nonce.saturating_add(1);
        self.put(k, account);
        assert(self.accounts() =~= after_debit(old(self).accounts(), address, amount));
        Ok(())
    }
}

impl Clone for InMemoryState {
    fn clone(&self) -> (r: InMemoryState)
        ensures
            r.accounts() == self.accounts(),
    {
        InMemoryState { accounts: self.accounts.clone() }
    }
}

impl Default for InMemoryState {
    fn default() -> (r: InMemoryState)
        ensures
            r.accounts() == Map::<AddressKey, AccountView>::empty(),
    {
        InMemoryState::new()
    }
}

impl StateStore for InMemoryState {
    closed spec fn accounts(&self) -> AccountsMap {
        accounts_view(self.accounts@)
    }

    fn get_account(&self, address: &Address) -> (r: Option<Account>) {
        match self.accounts.get(&address_key(address)) {
            Some(account) => Some(account.clone()),
            None => None,
        }
    }

    fn upsert_account(&mut self, address: Address, account: Account) {
        let k = address_key(&address);
        self.put(k, account);
    }

    fn get_storage(&self, address: &Address, key: &StorageKey) -> (r: Option<StorageValue>) {
        match self.accounts.get(&address_key(address)) {
            Some(account) => match account.storage.get(key) {
                Some(value) => Some(*value),
                None => None,
            },
            None => None,
        }
    }

    fn set_storage(&mut self, address: Address, key: StorageKey, value: StorageValue) {
        let k = address_key(&address);
        let mut account = self.take_or_empty(k);
        account.storage.insert(key, value);
        self.put(k, account);
        assert(self.accounts() =~= after_storage_write(old(self).accounts(), address, key, value));
    }

    fn transfer(&mut self, from: Address, to: Address, value: u128) -> (r: Result<(), StateError>) {
        let debit = self.debit_and_bump_nonce(from, value);
        if debit.is_err() {
            return debit;
        }
        let k = address_key(&to);
        let mut recipient = self.take_or_empty(k);
        recipient.balance = recipient.balance.saturating_add(value);
        self.put(k, recipient);
        assert(self.accounts() =~= after_credit(
            after_debit(old(self).accounts(), from, value),
            to,
            value,
        ));
        Ok(())
    }
}

/// A copy of a state's accounts.
#[derive(Debug, PartialEq, Eq)]
pub struct StateSnapshot {
    accounts: BTreeMap<AddressKey, Account>,
}

impl View for StateSnapshot {
    type V = AccountsMap;

    closed spec fn view(&self) -> AccountsMap {
        accounts_view(self.accounts@)
    }
}

impl StateSnapshot {
    /// The account at `address`, if any.
    pub fn get(&self, address: &Address) -> (r: Option<&Account>)
        ensures
            match r {
                Some(a) => account_at(self@, *address) == Some(a@),
                None => account_at(self@, *address) is None,
            },
    {
        self.accounts.get(&address_key(address))
    }

    /// Whether an account is stored at `address`.
    pub fn contains_key(&self, address: &Address) -> (r: bool)
        ensures
            r == self@.contains_key(address_key_of(*address)),
    {
        self.accounts.contains_key(&address_key(address))
    }

    /// The number of accounts.
    pub fn len(&self) -> (r: usize)
        ensures
            r == self@.len(),
    {
        assert(self@.dom() =~= self.accounts@.dom());
        self.accounts.len()
    }

    /// Whether no account is stored.
    pub fn is_empty(&self) -> (r: bool)
        ensures
            r == (self@.len() == 0),
    {
        self.len() == 0
    }

    /// The addresses of the stored accounts, in increasing key order.
    pub fn addresses(&self) -> (r: Vec<Address>)
        ensures
            r@.len() == sorted_address_keys(self@.dom()).len(),
            forall|i: int|
                0 <= i < r@.len() ==> address_key_of(#[trigger] r@[i]) == sorted_address_keys(
                    self@.dom(),
                )[i],
            sorted_address_keys(self@.dom()).to_set() == self@.dom(),
    {
        let keys = sorted_keys_of_map(&self.accounts);
        assert(self@.dom() =~= self.accounts@.dom());
        let mut out: Vec<Address> = Vec::new();
        let mut i: usize = 0;
        while i < keys.len()
            invariant
                i <= keys@.len(),
                out@.len() == i,
                forall|j: int| 0 <= j < i ==> address_key_of(#[trigger] out@[j]) == keys@[j],
            decreases keys@.len() - i,
        {
            out.push(address_from_key(keys[i]));
            i = i + 1;
        }
        out
    }
}

impl Clone for StateSnapshot {
    fn clone(&self) -> (r: StateSnapshot)
        ensures
            r@ == self@,
    {
        StateSnapshot { accounts: self.accounts.clone() }
    }
}

} // verus!

verus! {

/// A refused transfer leaves every account as it was.
pub proof fn lemma_refused_transfer_changes_nothing(
    m: AccountsMap,
    from: Address,
    to: Address,
    value: u128,
)
    requires
        transfer_result(m, from, to, value).1 is Err,
    ensures
        transfer_result(m, from, to, value).0 == m,
        account_or_empty(m, from).balance < value,
{
}

/// Applying a transaction that has a recipient is a transfer of its value
/// from its sender to that recipient.
pub proof fn lemma_apply_transaction_is_transfer(m: AccountsMap, tx: Transaction, to: Address)
    requires
        tx.spec_to() == Some(to),
    ensures
        apply_tx_result(m, tx) == transfer_result(m, tx.spec_from(), to, tx.spec_value()),
{
}

/// Applying `a + b` applies `a`, then, unless `a` was refused, `b` from the
/// resulting state.
pub proof fn lemma_apply_transactions_compose(
    m: AccountsMap,
    a: Seq<Transaction>,
    b: Seq<Transaction>,
)
    ensures
        apply_txs_result(m, a + b) == (if apply_txs_result(m, a).1 is Err {
            apply_txs_result(m, a)
        } else {
            apply_txs_result(apply_txs_result(m, a).0, b)
        }),
    decreases a.len(),
{
    if a.len() == 0 {
        assert(a + b =~= b);
    } else {
        assert((a + b)[0] == a[0]);
        assert((a + b).drop_first() =~= a.drop_first() + b);
        let (m1, r) = apply_tx_result(m, a[0]);
        if r is Ok {
            lemma_apply_transactions_compose(m1, a.drop_first(), b);
        }
    }
}

/// A transfer to oneself keeps the balance and bumps the nonce.
pub proof fn lemma_self_transfer_keeps_balance(m: AccountsMap, a: Address, value: u128)
    requires
        account_or_empty(m, a).balance >= value,
    ensures
        transfer_result(m, a, a, value).1 is Ok,
        account_or_empty(transfer_result(m, a, a, value).0, a).balance == account_or_empty(
            m,
            a,
        ).balance,
        account_or_empty(transfer_result(m, a, a, value).0, a).nonce == saturating_inc_u64(
            account_or_empty(m, a).nonce,
        ),
{
}

/// A transfer between two distinct accounts that does not saturate the
/// recipient keeps the sum of their balances, and touches no other account.
pub proof fn lemma_transfer_conserves_value(
    m: AccountsMap,
    from: Address,
    to: Address,
    value: u128,
    other: Address,
)
    requires
        from != to,
        account_or_empty(m, from).balance >= value,
        account_or_empty(m, to).balance + value <= u128::MAX,
        other != from,
        other != to,
    ensures
        ({
            let post = transfer_result(m, from, to, value).0;
            &&& account_or_empty(post, from).balance + account_or_empty(post, to).balance
                == account_or_empty(m, from).balance + account_or_empty(m, to).balance
            &&& account_at(post, other) == account_at(m, other)
        }),
{
    if address_key_of(from) == address_key_of(to) {
        crate::keys::lemma_address_key_injective(from, to);
    }
    if address_key_of(other) == address_key_of(from) {
        crate::keys::lemma_address_key_injective(other, from);
    }
    if address_key_of(other) == address_key_of(to) {
        crate::keys::lemma_address_key_injective(other, to);
    }
}

/// A storage write is read back, keeps the account's other fields, and
/// leaves every other (account, slot) pair as it was.
pub proof fn lemma_storage_write_is_scoped(
    m: AccountsMap,
    a: Address,
    key: StorageKey,
    value: StorageValue,
    b: Address,
    other_key: StorageKey,
)
    requires
        b != a || other_key != key,
    ensures
        ({
            let post = after_storage_write(m, a, key, value);
            &&& storage_at(post, a, key) == Some(value)
            &&& storage_at(post, b, other_key) == storage_at(m, b, other_key)
            &&& account_or_empty(post, a).nonce == account_or_empty(m, a).nonce
            &&& account_or_empty(post, a).balance == account_or_empty(m, a).balance
            &&& account_or_empty(post, a).code == account_or_empty(m, a).code
        }),
{
    if address_key_of(a) == address_key_of(b) {
        crate::keys::lemma_address_key_injective(a, b);
        if slot_key_of(key) == slot_key_of(other_key) {
            crate::keys::lemma_slot_key_injective(key, other_key);
        }
    }
}

} // verus!
