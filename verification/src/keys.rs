//! Fixed-width byte identifiers packed into integers.
//!
//! Addresses, peer identifiers and storage slots are byte arrays. The maps of
//! this crate are keyed by their big-endian integer packing, whose order is the
//! lexicographic order of the bytes and which loses no information.

use std::collections::BTreeMap;
use vstd::prelude::*;
use vstd::std_specs::btree::increasing_seq;
use vstd::std_specs::cmp::OrdSpec;
use vstd::std_specs::iter::IteratorSpec;

verus! {

/// A 20-byte account address.
pub type Address = [u8; 20];

/// A 32-byte hash.
pub type Hash32 = [u8; 32];

/// Map key of an address: its first 16 bytes and its last 4 bytes, big-endian.
pub type AddressKey = (u128, u32);

/// Map key of a 32-byte storage slot: its two halves, big-endian.
pub type SlotKey = (u128, u128);

/// Byte `j` (0 = most significant) of the big-endian encoding of `x`.
pub open spec fn be_byte(x: u64, j: int) -> u8 {
    ((x >> ((56 - 8 * j) as u64)) & 0xff) as u8
}

/// Byte `j` of the big-endian encoding of `x`.
pub fn be_byte_of(x: u64, j: usize) -> (r: u8)
    requires
        j < 8,
    ensures
        r == be_byte(x, j as int),
{
    let shift: u64 = 56 - 8 * (j as u64);
    #[verifier::truncate]
    (((x >> shift) & 0xff) as u8)
}

/// Big-endian value of four bytes.
pub open spec fn pack4(b0: u8, b1: u8, b2: u8, b3: u8) -> u32 {
    ((b0 as u32) << 24u32) | ((b1 as u32) << 16u32) | ((b2 as u32) << 8u32) | (b3 as u32)
}

/// Big-endian value of eight bytes.
pub open spec fn pack8(b0: u8, b1: u8, b2: u8, b3: u8, b4: u8, b5: u8, b6: u8, b7: u8) -> u64 {
    ((b0 as u64) << 56u64) | ((b1 as u64) << 48u64) | ((b2 as u64) << 40u64) | ((b3 as u64)
        << 32u64) | ((b4 as u64) << 24u64) | ((b5 as u64) << 16u64) | ((b6 as u64) << 8u64) | (
    b7 as u64)
}

/// The 128-bit value whose high half is `hi` and low half is `lo`.
pub open spec fn join64(hi: u64, lo: u64) -> u128 {
    ((hi as u128) << 64u128) | (lo as u128)
}

/// Big-endian value of the eight bytes of `s` from `at`.
pub open spec fn be64_at(s: Seq<u8>, at: int) -> u64 {
    pack8(s[at], s[at + 1], s[at + 2], s[at + 3], s[at + 4], s[at + 5], s[at + 6], s[at + 7])
}

/// Big-endian value of the sixteen bytes of `s` from `at`.
pub open spec fn be128_at(s: Seq<u8>, at: int) -> u128 {
    join64(be64_at(s, at), be64_at(s, at + 8))
}

/// The key of an address.
pub open spec fn address_key_of(a: Address) -> AddressKey {
    (be128_at(a@, 0), pack4(a[16], a[17], a[18], a[19]))
}

/// The key of a storage slot.
pub open spec fn slot_key_of(k: [u8; 32]) -> SlotKey {
    (be128_at(k@, 0), be128_at(k@, 16))
}

/// The key of a 16-byte identifier.
pub open spec fn id16_key_of(id: [u8; 16]) -> u128 {
    be128_at(id@, 0)
}

proof fn lemma_pack4_injective(
    a0: u8,
    a1: u8,
    a2: u8,
    a3: u8,
    b0: u8,
    b1: u8,
    b2: u8,
    b3: u8,
) by (bit_vector)
    requires
        pack4(a0, a1, a2, a3) == pack4(b0, b1, b2, b3),
    ensures
        a0 == b0 && a1 == b1 && a2 == b2 && a3 == b3,
{
}

proof fn lemma_pack8_injective(
    a0: u8,
    a1: u8,
    a2: u8,
    a3: u8,
    a4: u8,
    a5: u8,
    a6: u8,
    a7: u8,
    b0: u8,
    b1: u8,
    b2: u8,
    b3: u8,
    b4: u8,
    b5: u8,
    b6: u8,
    b7: u8,
) by (bit_vector)
    requires
        pack8(a0, a1, a2, a3, a4, a5, a6, a7) == pack8(b0, b1, b2, b3, b4, b5, b6, b7),
    ensures
        a0 == b0 && a1 == b1 && a2 == b2 && a3 == b3 && a4 == b4 && a5 == b5 && a6 == b6 && a7
            == b7,
{
}

proof fn lemma_join64_injective(h1: u64, l1: u64, h2: u64, l2: u64) by (bit_vector)
    requires
        join64(h1, l1) == join64(h2, l2),
    ensures
        h1 == h2 && l1 == l2,
{
}

proof fn lemma_be64_injective(s: Seq<u8>, t: Seq<u8>, at: int)
    requires
        0 <= at,
        at + 8 <= s.len(),
        at + 8 <= t.len(),
        be64_at(s, at) == be64_at(t, at),
    ensures
        forall|i: int| at <= i < at + 8 ==> s[i] == t[i],
{
    lemma_pack8_injective(
        s[at],
        s[at + 1],
        s[at + 2],
        s[at + 3],
        s[at + 4],
        s[at + 5],
        s[at + 6],
        s[at + 7],
        t[at],
        t[at + 1],
        t[at + 2],
        t[at + 3],
        t[at + 4],
        t[at + 5],
        t[at + 6],
        t[at + 7],
    );
    assert forall|i: int| at <= i < at + 8 implies s[i] == t[i] by {
        if i == at {
        } else if i == at + 1 {
        } else if i == at + 2 {
        } else if i == at + 3 {
        } else if i == at + 4 {
        } else if i == at + 5 {
        } else if i == at + 6 {
        } else {
        }
    }
}

proof fn lemma_be128_injective(s: Seq<u8>, t: Seq<u8>, at: int)
    requires
        0 <= at,
        at + 16 <= s.len(),
        at + 16 <= t.len(),
        be128_at(s, at) == be128_at(t, at),
    ensures
        forall|i: int| at <= i < at + 16 ==> s[i] == t[i],
{
    lemma_join64_injective(be64_at(s, at), be64_at(s, at + 8), be64_at(t, at), be64_at(t, at + 8));
    lemma_be64_injective(s, t, at);
    lemma_be64_injective(s, t, at + 8);
}

/// Distinct addresses have distinct keys.
pub proof fn lemma_address_key_injective(a: Address, b: Address)
    requires
        address_key_of(a) == address_key_of(b),
    ensures
        a == b,
{
    lemma_be128_injective(a@, b@, 0);
    lemma_pack4_injective(a[16], a[17], a[18], a[19], b[16], b[17], b[18], b[19]);
    assert forall|i: int| 0 <= i < 20 implies a[i] == b[i] by {
        if i < 16 {
            assert(a@[i] == b@[i]);
        }
    }
    assert(a =~= b);
}

/// Distinct storage slots have distinct keys.
pub proof fn lemma_slot_key_injective(a: [u8; 32], b: [u8; 32])
    requires
        slot_key_of(a) == slot_key_of(b),
    ensures
        a == b,
{
    lemma_be128_injective(a@, b@, 0);
    lemma_be128_injective(a@, b@, 16);
    assert forall|i: int| 0 <= i < 32 implies a[i] == b[i] by {
        assert(a@[i] == b@[i]);
    }
    assert(a =~= b);
}

/// Distinct 16-byte identifiers have distinct keys.
pub proof fn lemma_id16_key_injective(a: [u8; 16], b: [u8; 16])
    requires
        id16_key_of(a) == id16_key_of(b),
    ensures
        a == b,
{
    lemma_be128_injective(a@, b@, 0);
    assert forall|i: int| 0 <= i < 16 implies a[i] == b[i] by {
        assert(a@[i] == b@[i]);
    }
    assert(a =~= b);
}

fn be64_of(s: &[u8], at: usize) -> (r: u64)
    requires
        at + 8 <= s@.len(),
    ensures
        r == be64_at(s@, at as int),
{
    ((s[at] as u64) << 56u64) | ((s[at + 1] as u64) << 48u64) | ((s[at + 2] as u64) << 40u64) | ((
    s[at + 3] as u64) << 32u64) | ((s[at + 4] as u64) << 24u64) | ((s[at + 5] as u64) << 16u64)
        | ((s[at + 6] as u64) << 8u64) | (s[at + 7] as u64)
}

fn be128_of(s: &[u8], at: usize) -> (r: u128)
    requires
        at <= 16,
        at + 16 <= s@.len(),
    ensures
        r == be128_at(s@, at as int),
{
    let hi = be64_of(s, at);
    let lo = be64_of(s, at + 8);
    ((hi as u128) << 64u128) | (lo as u128)
}

/// The map key of an address.
pub fn address_key(a: &Address) -> (k: AddressKey)
    ensures
        k == address_key_of(*a),
{
    let s = a.as_slice();
    let hi = be128_of(s, 0);
    let lo = ((a[16] as u32) << 24u32) | ((a[17] as u32) << 16u32) | ((a[18] as u32) << 8u32) | (
    a[19] as u32);
    (hi, lo)
}

/// The map key of a storage slot.
pub fn slot_key(k: &[u8; 32]) -> (r: SlotKey)
    ensures
        r == slot_key_of(*k),
{
    let s = k.as_slice();
    (be128_of(s, 0), be128_of(s, 16))
}

/// The map key of a 16-byte identifier.
pub fn id16_key(id: &[u8; 16]) -> (r: u128)
    ensures
        r == id16_key_of(*id),
{
    be128_of(id.as_slice(), 0)
}


proof fn lemma_pack4_of_bytes(x: u32) by (bit_vector)
    ensures
        pack4(
            (x >> 24u32) as u8,
            (x >> 16u32) as u8,
            (x >> 8u32) as u8,
            x as u8,
        ) == x,
{
}

proof fn lemma_pack8_of_bytes(x: u64) by (bit_vector)
    ensures
        pack8(
            (x >> 56u64) as u8,
            (x >> 48u64) as u8,
            (x >> 40u64) as u8,
            (x >> 32u64) as u8,
            (x >> 24u64) as u8,
            (x >> 16u64) as u8,
            (x >> 8u64) as u8,
            x as u8,
        ) == x,
{
}

proof fn lemma_join64_of_halves(x: u128) by (bit_vector)
    ensures
        join64((x >> 64u128) as u64, x as u64) == x,
{
}

fn put_be64(out: &mut [u8; 20], at: usize, x: u64)
    requires
        at + 8 <= 20,
    ensures
        be64_at(final(out)@, at as int) == x,
        forall|i: int| 0 <= i < 20 && !(at <= i < at + 8) ==> final(out)[i] == old(out)[i],
{
    proof {
        lemma_pack8_of_bytes(x);
    }
    out[at] = #[verifier::truncate] ((x >> 56u64) as u8);
    out[at + 1] = #[verifier::truncate] ((x >> 48u64) as u8);
    out[at + 2] = #[verifier::truncate] ((x >> 40u64) as u8);
    out[at + 3] = #[verifier::truncate] ((x >> 32u64) as u8);
    out[at + 4] = #[verifier::truncate] ((x >> 24u64) as u8);
    out[at + 5] = #[verifier::truncate] ((x >> 16u64) as u8);
    out[at + 6] = #[verifier::truncate] ((x >> 8u64) as u8);
    out[at + 7] = #[verifier::truncate] (x as u8);
}

/// The address whose key is `k`.
pub fn address_from_key(k: AddressKey) -> (a: Address)
    ensures
        address_key_of(a) == k,
{
    let (hi, lo) = k;
    let mut out = [0u8; 20];
    let top = #[verifier::truncate] ((hi >> 64u128) as u64);
    let bottom = #[verifier::truncate] (hi as u64);
    proof {
        lemma_join64_of_halves(hi);
        lemma_pack4_of_bytes(lo);
    }
    put_be64(&mut out, 0, top);
    put_be64(&mut out, 8, bottom);
    out[16] = #[verifier::truncate] ((lo >> 24u32) as u8);
    out[17] = #[verifier::truncate] ((lo >> 16u32) as u8);
    out[18] = #[verifier::truncate] ((lo >> 8u32) as u8);
    out[19] = #[verifier::truncate] (lo as u8);
    assert(be128_at(out@, 0) == hi);
    out
}


/// The order of address keys: by first part, then by second part.
pub open spec fn address_key_lt(a: AddressKey, b: AddressKey) -> bool {
    a.0 < b.0 || (a.0 == b.0 && a.1 < b.1)
}

/// Whether `s` is strictly increasing in address-key order.
pub open spec fn address_keys_increasing(s: Seq<AddressKey>) -> bool {
    forall|i: int, j: int| 0 <= i < j < s.len() ==> address_key_lt(s[i], s[j])
}

/// The elements of a finite set of address keys, in increasing order.
pub open spec fn sorted_address_keys(d: Set<AddressKey>) -> Seq<AddressKey> {
    choose|s: Seq<AddressKey>| address_keys_increasing(s) && s.to_set() == d
}

/// Two increasing sequences of address keys with the same elements are equal.
pub proof fn lemma_address_keys_increasing_unique(s: Seq<AddressKey>, t: Seq<AddressKey>)
    requires
        address_keys_increasing(s),
        address_keys_increasing(t),
        s.to_set() == t.to_set(),
    ensures
        s == t,
    decreases s.len(),
{
    if s.len() == 0 {
        if t.len() > 0 {
            assert(t.to_set().contains(t[0]));
        }
        assert(s =~= t);
    } else {
        assert(s.to_set().contains(s[0]));
        assert(t.to_set().contains(s[0]));
        let j = choose|j: int| 0 <= j < t.len() && t[j] == s[0];
        assert(t.to_set().contains(t[0]));
        let i = choose|i: int| 0 <= i < s.len() && s[i] == t[0];
        if i > 0 {
            assert(address_key_lt(s[0], s[i]));
        }
        if j > 0 {
            assert(address_key_lt(t[0], t[j]));
        }
        assert(s[0] == t[0]);
        let s1 = s.drop_first();
        let t1 = t.drop_first();
        assert forall|x: AddressKey| s1.to_set().contains(x) <==> t1.to_set().contains(x) by {
            if s1.to_set().contains(x) {
                let a = choose|a: int| 0 <= a < s1.len() && s1[a] == x;
                assert(address_key_lt(s[0], s[a + 1]));
                assert(s.to_set().contains(x));
                let b = choose|b: int| 0 <= b < t.len() && t[b] == x;
                assert(b != 0);
                assert(t1[b - 1] == x);
            }
            if t1.to_set().contains(x) {
                let a = choose|a: int| 0 <= a < t1.len() && t1[a] == x;
                assert(address_key_lt(t[0], t[a + 1]));
                assert(t.to_set().contains(x));
                let b = choose|b: int| 0 <= b < s.len() && s[b] == x;
                assert(b != 0);
                assert(s1[b - 1] == x);
            }
        }
        assert(s1.to_set() =~= t1.to_set());
        lemma_address_keys_increasing_unique(s1, t1);
        assert forall|k: int| 0 <= k < s.len() implies s[k] == t[k] by {
            if k > 0 {
                assert(s[k] == s1[k - 1]);
                assert(t[k] == t1[k - 1]);
            }
        }
        assert(s =~= t);
    }
}

proof fn lemma_increasing_address_keys(ks: Seq<AddressKey>)
    requires
        increasing_seq(ks),
    ensures
        address_keys_increasing(ks),
{
    broadcast use vstd::std_specs::btree::axiom_increasing_seq_meaning;
    broadcast use vstd::laws_cmp::group_laws_cmp;

    assert forall|i: int, j: int| 0 <= i < j < ks.len() implies address_key_lt(ks[i], ks[j]) by {
        assert(ks[i].cmp_spec(&ks[j]) is Less);
    }
}

/// The keys of `m`, in increasing order.
pub fn sorted_keys_of_map<V>(m: &BTreeMap<AddressKey, V>) -> (r: Vec<AddressKey>)
    ensures
        r@ == sorted_address_keys(m@.dom()),
        address_keys_increasing(r@),
        r@.to_set() == m@.dom(),
{
    let mut out: Vec<AddressKey> = Vec::new();
    let entries = m.iter();
    let ghost all = entries.remaining();
    let ghost ks = all.map_values(|kv: (&AddressKey, &V)| *kv.0);
    assert(increasing_seq(ks));
    for kv in it: entries
        invariant
            it.seq() == all,
            ks == all.map_values(|kv: (&AddressKey, &V)| *kv.0),
            out@ == ks.take(it.index() as int),
    {
        let (k, _) = kv;
        out.push(*k);
        assert(ks.take(it.index() + 1) =~= ks.take(it.index() as int).push(*k));
    }
    proof {
        assert(out@ =~= ks);
        lemma_increasing_address_keys(ks);
        assert forall|x: AddressKey| ks.to_set().contains(x) <==> m@.dom().contains(x) by {
            if m@.dom().contains(x) {
                assert(all.contains((&x, &m@[x])));
                let a = choose|a: int| 0 <= a < all.len() && all[a] == (&x, &m@[x]);
                assert(ks[a] == x);
            }
            if ks.to_set().contains(x) {
                let a = choose|a: int| 0 <= a < ks.len() && ks[a] == x;
                assert(m@.contains_key(*all[a].0));
            }
        }
        assert(ks.to_set() =~= m@.dom());
        let s = sorted_address_keys(m@.dom());
        assert(address_keys_increasing(s) && s.to_set() == m@.dom());
        lemma_address_keys_increasing_unique(s, ks);
    }
    out
}


/// `s` with `x` inserted after every key below it.
pub open spec fn insert_address_key(s: Seq<AddressKey>, x: AddressKey) -> Seq<AddressKey>
    decreases s.len(),
{
    if s.len() > 0 && address_key_lt(x, s.last()) {
        insert_address_key(s.drop_last(), x).push(s.last())
    } else {
        s.push(x)
    }
}

proof fn lemma_insert_address_key(s: Seq<AddressKey>, x: AddressKey)
    requires
        address_keys_increasing(s),
        !s.contains(x),
    ensures
        address_keys_increasing(insert_address_key(s, x)),
        forall|y: AddressKey| #[trigger]
            insert_address_key(s, x).contains(y) <==> (y == x || s.contains(y)),
    decreases s.len(),
{
    let r = insert_address_key(s, x);
    if s.len() > 0 && address_key_lt(x, s.last()) {
        let s0 = s.drop_last();
        let last = s.last();
        assert(!s0.contains(x)) by {
            if s0.contains(x) {
                let j = choose|j: int| 0 <= j < s0.len() && s0[j] == x;
                assert(s[j] == x);
            }
        }
        lemma_insert_address_key(s0, x);
        let t = insert_address_key(s0, x);
        assert(r == t.push(last));
        assert forall|i: int, j: int| 0 <= i < j < r.len() implies address_key_lt(r[i], r[j]) by {
            if j == t.len() {
                assert(r[j] == last);
                assert(r[i] == t[i]);
                assert(t.contains(t[i]));
                if t[i] != x {
                    let m = choose|m: int| 0 <= m < s0.len() && s0[m] == t[i];
                    assert(s[m] == t[i]);
                    assert(address_key_lt(s[m], s[s.len() - 1]));
                }
            } else {
                assert(r[i] == t[i] && r[j] == t[j]);
            }
        }
        assert forall|y: AddressKey| #[trigger] r.contains(y) <==> (y == x || s.contains(y)) by {
            if r.contains(y) {
                let j = choose|j: int| 0 <= j < r.len() && r[j] == y;
                if j < t.len() {
                    assert(t[j] == y);
                    assert(t.contains(y));
                    if y != x {
                        let m = choose|m: int| 0 <= m < s0.len() && s0[m] == y;
                        assert(s[m] == y);
                    }
                } else {
                    assert(s[s.len() - 1] == y);
                }
            }
            if y == x {
                assert(t.contains(x));
                let j = choose|j: int| 0 <= j < t.len() && t[j] == x;
                assert(r[j] == x);
            }
            if s.contains(y) {
                let m = choose|m: int| 0 <= m < s.len() && s[m] == y;
                if m == s.len() - 1 {
                    assert(r[t.len() as int] == y);
                } else {
                    assert(s0[m] == y);
                    assert(s0.contains(y));
                    assert(t.contains(y));
                    let j = choose|j: int| 0 <= j < t.len() && t[j] == y;
                    assert(r[j] == y);
                }
            }
        }
    } else {
        assert(r == s.push(x));
        assert forall|i: int, j: int| 0 <= i < j < r.len() implies address_key_lt(r[i], r[j]) by {
            if j == s.len() {
                let l = s.last();
                assert(s.contains(l));
                assert(l != x);
                assert(address_key_lt(l, x));
                if i < s.len() - 1 {
                    assert(address_key_lt(s[i], s[s.len() - 1]));
                }
                assert(r[i] == s[i]);
            } else {
                assert(r[i] == s[i] && r[j] == s[j]);
            }
        }
        assert forall|y: AddressKey| #[trigger] r.contains(y) <==> (y == x || s.contains(y)) by {
            if r.contains(y) {
                let j = choose|j: int| 0 <= j < r.len() && r[j] == y;
                if j < s.len() {
                    assert(s[j] == y);
                }
            }
            if y == x {
                assert(r[s.len() as int] == x);
            }
            if s.contains(y) {
                let m = choose|m: int| 0 <= m < s.len() && s[m] == y;
                assert(r[m] == y);
            }
        }
    }
}

proof fn lemma_increasing_keys_exist(d: Set<AddressKey>) -> (s: Seq<AddressKey>)
    requires
        d.finite(),
    ensures
        address_keys_increasing(s),
        forall|y: AddressKey| #[trigger] s.contains(y) <==> d.contains(y),
    decreases d.len(),
{
    if d.len() == 0 {
        assert(d =~= Set::<AddressKey>::empty());
        Seq::empty()
    } else {
        let x = d.choose();
        let s0 = lemma_increasing_keys_exist(d.remove(x));
        lemma_insert_address_key(s0, x);
        insert_address_key(s0, x)
    }
}

/// The keys of a finite set of address keys can be listed in increasing
/// order: `sorted_address_keys` lists exactly the set, increasing.
pub proof fn lemma_sorted_address_keys(d: Set<AddressKey>)
    requires
        d.finite(),
    ensures
        address_keys_increasing(sorted_address_keys(d)),
        sorted_address_keys(d).to_set() == d,
{
    let s = lemma_increasing_keys_exist(d);
    assert(s.to_set() =~= d);
    assert(address_keys_increasing(s) && s.to_set() == d);
}

} // verus!
