//! A deterministic 64-bit digest of a transaction's content.
//!
//! The transaction is laid out as a sequence of 64-bit words (variant tag,
//! scalar fields, every byte of its addresses, data and blob hashes, with
//! lengths in front of variable-length parts) and folded with the FNV-1a
//! multiplier.

use vstd::prelude::*;

use crate::keys::{Address, Hash32};
use crate::types::Transaction;

verus! {

/// The starting value of the fold.
pub open spec fn digest_seed() -> u64 {
    0xcbf2_9ce4_8422_2325
}

/// One step of the fold.
pub open spec fn mix(h: u64, w: u64) -> u64 {
    ((h as int * 0x100_0000_01b3 + w as int) % 0x1_0000_0000_0000_0000) as u64
}

/// The fold of a word sequence.
pub open spec fn digest_of(ws: Seq<u64>) -> u64
    decreases ws.len(),
{
    if ws.len() == 0 {
        digest_seed()
    } else {
        mix(digest_of(ws.drop_last()), ws.last())
    }
}

/// One word per byte.
pub open spec fn bytes_words(b: Seq<u8>) -> Seq<u64> {
    b.map_values(|x: u8| x as u64)
}

/// A byte string: its length, then its bytes.
pub open spec fn sized_bytes_words(b: Seq<u8>) -> Seq<u64> {
    seq![b.len() as u64] + bytes_words(b)
}

/// A 128-bit value: low half, then high half.
pub open spec fn u128_words(v: u128) -> Seq<u64> {
    seq![(v % 0x1_0000_0000_0000_0000) as u64, (v / 0x1_0000_0000_0000_0000) as u64]
}

/// A recipient: `0` for none, or `1` then the address bytes.
pub open spec fn recipient_words(to: Option<Address>) -> Seq<u64> {
    match to {
        None => seq![0u64],
        Some(a) => seq![1u64] + bytes_words(a@),
    }
}

/// The bytes of a list of hashes.
pub open spec fn hashes_words(hs: Seq<Hash32>) -> Seq<u64>
    decreases hs.len(),
{
    if hs.len() == 0 {
        Seq::empty()
    } else {
        hashes_words(hs.drop_last()) + bytes_words(hs.last()@)
    }
}

/// The word layout of a transaction.
pub open spec fn tx_words(tx: Transaction) -> Seq<u64> {
    match tx {
        Transaction::Legacy(t) => seq![0u64, t.nonce] + bytes_words(t.from@) + recipient_words(t.to)
            + seq![t.gas_limit] + u128_words(t.gas_price) + u128_words(t.value) + sized_bytes_words(
            t.data@,
        ),
        Transaction::Eip1559(t) => seq![1u64, t.nonce] + bytes_words(t.from@) + recipient_words(
            t.to,
        ) + seq![t.gas_limit] + u128_words(t.max_fee_per_gas) + u128_words(
            t.max_priority_fee_per_gas,
        ) + u128_words(t.value) + sized_bytes_words(t.data@),
        Transaction::Blob(t) => seq![2u64, t.nonce] + bytes_words(t.from@) + recipient_words(t.to)
            + seq![t.gas_limit] + u128_words(t.max_fee_per_gas) + u128_words(
            t.max_priority_fee_per_gas,
        ) + u128_words(t.max_fee_per_blob_gas) + u128_words(t.value) + sized_bytes_words(t.data@)
            + seq![t.blob_versioned_hashes@.len() as u64] + hashes_words(t.blob_versioned_hashes@),
    }
}

/// The digest of a transaction's content.
pub open spec fn tx_digest_of(tx: Transaction) -> u64 {
    digest_of(tx_words(tx))
}

fn absorb(h: u64, Ghost(ws): Ghost<Seq<u64>>, w: u64) -> (r: u64)
    requires
        h == digest_of(ws),
    ensures
        r == digest_of(ws.push(w)),
{
    assert(ws.push(w).drop_last() =~= ws);
    let x: u128 = (h as u128) * 0x100_0000_01b3u128 + (w as u128);
    (x % 0x1_0000_0000_0000_0000u128) as u64
}

fn absorb_bytes(h: u64, Ghost(ws): Ghost<Seq<u64>>, b: &[u8]) -> (r: u64)
    requires
        h == digest_of(ws),
    ensures
        r == digest_of(ws + bytes_words(b@)),
{
    let mut h = h;
    let mut i: usize = 0;
    assert(ws + bytes_words(b@.take(0)) =~= ws);
    while i < b.len()
        invariant
            i <= b@.len(),
            h == digest_of(ws + bytes_words(b@.take(i as int))),
        decreases b@.len() - i,
    {
        let ghost before = ws + bytes_words(b@.take(i as int));
        h = absorb(h, Ghost(before), b[i] as u64);
        assert(before.push(b@[i as int] as u64) =~= ws + bytes_words(b@.take(i + 1)));
        i = i + 1;
    }
    assert(b@.take(b@.len() as int) =~= b@);
    h
}

fn absorb_sized_bytes(h: u64, Ghost(ws): Ghost<Seq<u64>>, b: &[u8]) -> (r: u64)
    requires
        h == digest_of(ws),
    ensures
        r == digest_of(ws + sized_bytes_words(b@)),
{
    let h1 = absorb(h, Ghost(ws), b.len() as u64);
    let h2 = absorb_bytes(h1, Ghost(ws.push(b.len() as u64)), b);
    assert(ws.push(b@.len() as u64) + bytes_words(b@) =~= ws + sized_bytes_words(b@));
    h2
}

fn absorb_u128(h: u64, Ghost(ws): Ghost<Seq<u64>>, v: u128) -> (r: u64)
    requires
        h == digest_of(ws),
    ensures
        r == digest_of(ws + u128_words(v)),
{
    let lo = (v % 0x1_0000_0000_0000_0000u128) as u64;
    let hi = (v / 0x1_0000_0000_0000_0000u128) as u64;
    let h1 = absorb(h, Ghost(ws), lo);
    let h2 = absorb(h1, Ghost(ws.push(lo)), hi);
    assert(ws.push(lo).push(hi) =~= ws + u128_words(v));
    h2
}

fn absorb_recipient(h: u64, Ghost(ws): Ghost<Seq<u64>>, to: &Option<Address>) -> (r: u64)
    requires
        h == digest_of(ws),
    ensures
        r == digest_of(ws + recipient_words(*to)),
{
    match to {
        None => {
            let r = absorb(h, Ghost(ws), 0);
            assert(ws.push(0u64) =~= ws + recipient_words(*to));
            r
        },
        Some(a) => {
            let h1 = absorb(h, Ghost(ws), 1);
            let r = absorb_bytes(h1, Ghost(ws.push(1u64)), a.as_slice());
            assert(ws.push(1u64) + bytes_words(a@) =~= ws + recipient_words(*to));
            r
        },
    }
}

fn absorb_hashes(h: u64, Ghost(ws): Ghost<Seq<u64>>, hs: &Vec<Hash32>) -> (r: u64)
    requires
        h == digest_of(ws),
    ensures
        r == digest_of(ws + hashes_words(hs@)),
{
    let mut h = h;
    let mut i: usize = 0;
    assert(hs@.take(0) =~= Seq::<Hash32>::empty());
    assert(ws + hashes_words(hs@.take(0)) =~= ws);
    while i < hs.len()
        invariant
            i <= hs@.len(),
            h == digest_of(ws + hashes_words(hs@.take(i as int))),
        decreases hs@.len() - i,
    {
        let ghost before = ws + hashes_words(hs@.take(i as int));
        h = absorb_bytes(h, Ghost(before), hs[i].as_slice());
        assert(hs@.take(i + 1).drop_last() =~= hs@.take(i as int));
        assert(before + bytes_words(hs@[i as int]@) =~= ws + hashes_words(hs@.take(i + 1)));
        i = i + 1;
    }
    assert(hs@.take(hs@.len() as int) =~= hs@);
    h
}

/// The digest of `tx`'s content.
pub fn tx_digest(tx: &Transaction) -> (r: u64)
    ensures
        r == tx_digest_of(*tx),
{
    let ghost ws: Seq<u64> = Seq::empty();
    assert(digest_of(ws) == digest_seed());
    let h = 0xcbf2_9ce4_8422_2325u64;
    match tx {
        Transaction::Legacy(t) => {
            let h = absorb(h, Ghost(ws), 0);
            let ghost ws = ws.push(0u64);
            let h = absorb(h, Ghost(ws), t.nonce);
            let ghost ws = ws.push(t.nonce);
            let h = absorb_bytes(h, Ghost(ws), t.from.as_slice());
            let ghost ws = ws + bytes_words(t.from@);
            let h = absorb_recipient(h, Ghost(ws), &t.to);
            let ghost ws = ws + recipient_words(t.to);
            let h = absorb(h, Ghost(ws), t.gas_limit);
            let ghost ws = ws.push(t.gas_limit);
            let h = absorb_u128(h, Ghost(ws), t.gas_price);
            let ghost ws = ws + u128_words(t.gas_price);
            let h = absorb_u128(h, Ghost(ws), t.value);
            let ghost ws = ws + u128_words(t.value);
            let h = absorb_sized_bytes(h, Ghost(ws), t.data.as_slice());
            let ghost ws = ws + sized_bytes_words(t.data@);
            assert(ws =~= tx_words(*tx));
            h
        },
        Transaction::Eip1559(t) => {
            let h = absorb(h, Ghost(ws), 1);
            let ghost ws = ws.push(1u64);
            let h = absorb(h, Ghost(ws), t.nonce);
            let ghost ws = ws.push(t.nonce);
            let h = absorb_bytes(h, Ghost(ws), t.from.as_slice());
            let ghost ws = ws + bytes_words(t.from@);
            let h = absorb_recipient(h, Ghost(ws), &t.to);
            let ghost ws = ws + recipient_words(t.to);
            let h = absorb(h, Ghost(ws), t.gas_limit);
            let ghost ws = ws.push(t.gas_limit);
            let h = absorb_u128(h, Ghost(ws), t.max_fee_per_gas);
            let ghost ws = ws + u128_words(t.max_fee_per_gas);
            let h = absorb_u128(h, Ghost(ws), t.max_priority_fee_per_gas);
            let ghost ws = ws + u128_words(t.max_priority_fee_per_gas);
            let h = absorb_u128(h, Ghost(ws), t.value);
            let ghost ws = ws + u128_words(t.value);
            let h = absorb_sized_bytes(h, Ghost(ws), t.data.as_slice());
            let ghost ws = ws + sized_bytes_words(t.data@);
            assert(ws =~= tx_words(*tx));
            h
        },
        Transaction::Blob(t) => {
            let h = absorb(h, Ghost(ws), 2);
            let ghost ws = ws.push(2u64);
            let h = absorb(h, Ghost(ws), t.nonce);
            let ghost ws = ws.push(t.nonce);
            let h = absorb_bytes(h, Ghost(ws), t.from.as_slice());
            let ghost ws = ws + bytes_words(t.from@);
            let h = absorb_recipient(h, Ghost(ws), &t.to);
            let ghost ws = ws + recipient_words(t.to);
            let h = absorb(h, Ghost(ws), t.gas_limit);
            let ghost ws = ws.push(t.gas_limit);
            let h = absorb_u128(h, Ghost(ws), t.max_fee_per_gas);
            let ghost ws = ws + u128_words(t.max_fee_per_gas);
            let h = absorb_u128(h, Ghost(ws), t.max_priority_fee_per_gas);
            let ghost ws = ws + u128_words(t.max_priority_fee_per_gas);
            let h = absorb_u128(h, Ghost(ws), t.max_fee_per_blob_gas);
            let ghost ws = ws + u128_words(t.max_fee_per_blob_gas);
            let h = absorb_u128(h, Ghost(ws), t.value);
            let ghost ws = ws + u128_words(t.value);
            let h = absorb_sized_bytes(h, Ghost(ws), t.data.as_slice());
            let ghost ws = ws + sized_bytes_words(t.data@);
            let h = absorb(h, Ghost(ws), t.blob_versioned_hashes.len() as u64);
            let ghost ws = ws.push(t.blob_versioned_hashes@.len() as u64);
            let h = absorb_hashes(h, Ghost(ws), &t.blob_versioned_hashes);
            let ghost ws = ws + hashes_words(t.blob_versioned_hashes@);
            assert(ws =~= tx_words(*tx));
            h
        },
    }
}

} // verus!
