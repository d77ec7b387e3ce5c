//! The conformance fixture harness: parsing of fixture fields and the
//! execution of a fixture against the in-memory state.

use std::collections::BTreeMap;
use vstd::prelude::*;
use vstd::string::StringSliceAdditionalSpecFns;

use crate::keys::{
    address_from_key, address_key, address_key_of, lemma_address_key_injective, lemma_sorted_address_keys,
    sorted_address_keys, sorted_keys_of_map, Address, AddressKey,
};
use crate::state::{
    account_or_empty, after_credit, after_debit, apply_tx_result, apply_txs_result, empty_account,
    insufficient, AccountView, AccountsMap, Account, InMemoryState, StateError, StateSnapshot,
    StateStore,
};
use crate::text::{decimal_string, digit_char, digits_of, push_digits};
use crate::types::{LegacyTx, Transaction};

verus! {

/// Whether `c` has the Unicode `White_Space` property.
pub open spec fn is_whitespace_char(c: char) -> bool {
    let u = c as u32;
    (0x09 <= u <= 0x0d) || u == 0x20 || u == 0x85 || u == 0xa0 || u == 0x1680 || (0x2000 <= u
        <= 0x200a) || u == 0x2028 || u == 0x2029 || u == 0x202f || u == 0x205f || u == 0x3000
}

/// `s` without its leading whitespace.
pub open spec fn trim_start(s: Seq<char>) -> Seq<char>
    decreases s.len(),
{
    if s.len() > 0 && is_whitespace_char(s[0]) {
        trim_start(s.drop_first())
    } else {
        s
    }
}

/// `s` without its trailing whitespace.
pub open spec fn trim_end(s: Seq<char>) -> Seq<char>
    decreases s.len(),
{
    if s.len() > 0 && is_whitespace_char(s.last()) {
        trim_end(s.drop_last())
    } else {
        s
    }
}

/// `s` without leading and trailing whitespace.
pub open spec fn trimmed(s: Seq<char>) -> Seq<char> {
    trim_end(trim_start(s))
}

fn is_whitespace(c: char) -> (r: bool)
    ensures
        r == is_whitespace_char(c),
{
    let u = c as u32;
    (0x09 <= u && u <= 0x0d) || u == 0x20 || u == 0x85 || u == 0xa0 || u == 0x1680 || (0x2000
        <= u && u <= 0x200a) || u == 0x2028 || u == 0x2029 || u == 0x202f || u == 0x205f || u
        == 0x3000
}

proof fn lemma_trim_start_skip(s: Seq<char>, i: int)
    requires
        0 <= i < s.len(),
        is_whitespace_char(s[i]),
    ensures
        trim_start(s.skip(i)) == trim_start(s.skip(i + 1)),
{
    assert(s.skip(i).drop_first() =~= s.skip(i + 1));
}

proof fn lemma_trim_end_take(s: Seq<char>, j: int)
    requires
        0 < j <= s.len(),
        is_whitespace_char(s[j - 1]),
    ensures
        trim_end(s.take(j)) == trim_end(s.take(j - 1)),
{
    assert(s.take(j).drop_last() =~= s.take(j - 1));
}

/// `s` without leading and trailing whitespace.
pub fn trim(s: &str) -> (r: &str)
    ensures
        r@ == trimmed(s@),
{
    let n = s.unicode_len();
    let mut i: usize = 0;
    assert(s@.skip(0) =~= s@);
    while i < n && is_whitespace(s.get_char(i))
        invariant
            i <= n,
            n == s@.len(),
            trim_start(s@) == trim_start(s@.skip(i as int)),
        decreases n - i,
    {
        proof {
            lemma_trim_start_skip(s@, i as int);
        }
        i = i + 1;
    }
    let ghost rest = s@.skip(i as int);
    assert(i == n ==> rest.len() == 0);
    assert(i < n ==> rest[0] == s@[i as int]);
    assert(trim_start(s@) == rest);
    let mut j: usize = n;
    assert(rest.take(rest.len() as int) =~= rest);
    while j > i && is_whitespace(s.get_char(j - 1))
        invariant
            i <= j <= n,
            n == s@.len(),
            rest == s@.skip(i as int),
            trim_end(rest) == trim_end(rest.take(j - i)),
        decreases j,
    {
        proof {
            assert(rest[j - i - 1] == s@[j - 1]);
            lemma_trim_end_take(rest, j - i);
        }
        j = j - 1;
    }
    let r = s.substring_char(i, j);
    assert(r@ =~= rest.take(j - i));
    assert(j > i ==> rest.take(j - i).last() == s@[j - 1]);
    r
}

/// The value of digit character `c` in bases up to 36.
pub open spec fn digit_value(c: char) -> Option<nat> {
    let u = c as u32;
    if 0x30 <= u <= 0x39 {
        Some((u - 0x30) as nat)
    } else if 0x61 <= u <= 0x7a {
        Some((u - 0x61 + 10) as nat)
    } else if 0x41 <= u <= 0x5a {
        Some((u - 0x41 + 10) as nat)
    } else {
        None
    }
}

/// The value of the digit string `s` in base `radix`, if every character is
/// a digit of that base.
pub open spec fn digits_value(s: Seq<char>, radix: nat) -> Option<nat>
    decreases s.len(),
{
    if s.len() == 0 {
        Some(0)
    } else {
        match (digits_value(s.drop_last(), radix), digit_value(s.last())) {
            (Some(v), Some(d)) => if d < radix {
                Some(v * radix + d)
            } else {
                None
            },
            _ => None,
        }
    }
}

/// The value, when it fits in 128 bits.
pub open spec fn bounded_u128(v: Option<nat>) -> Option<u128> {
    match v {
        Some(x) => if x <= u128::MAX {
            Some(x as u128)
        } else {
            None
        },
        None => None,
    }
}

/// The `u128` that `s` denotes in base `radix`: an optional `+`, then at
/// least one digit, the value fitting in 128 bits.
pub open spec fn radix_u128(s: Seq<char>, radix: nat) -> Option<u128> {
    let body = if s.len() > 0 && s[0] == '+' {
        s.drop_first()
    } else {
        s
    };
    if body.len() == 0 {
        None
    } else {
        match digits_value(body, radix) {
            Some(v) => if v <= u128::MAX {
                Some(v as u128)
            } else {
                None
            },
            None => None,
        }
    }
}

/// The number a fixture field denotes: surrounding whitespace ignored, `0x`
/// or `0X` then hexadecimal digits, or decimal digits.
pub open spec fn fixture_number(value: Seq<char>) -> Option<u128> {
    let t = trimmed(value);
    if t.len() == 0 {
        None
    } else if t.len() >= 2 && t[0] == '0' && (t[1] == 'x' || t[1] == 'X') {
        if t.len() == 2 {
            None
        } else {
            radix_u128(t.skip(2), 16)
        }
    } else {
        radix_u128(t, 10)
    }
}

proof fn lemma_digits_prefix(s: Seq<char>, radix: nat, j: int)
    requires
        radix >= 1,
        0 <= j <= s.len(),
        digits_value(s, radix) is Some,
    ensures
        digits_value(s.take(j), radix) is Some,
        digits_value(s.take(j), radix)->Some_0 <= digits_value(s, radix)->Some_0,
    decreases s.len(),
{
    if j == s.len() {
        assert(s.take(j) =~= s);
    } else {
        let p = s.drop_last();
        lemma_digits_prefix(p, radix, j);
        assert(p.take(j) =~= s.take(j));
        let v = digits_value(p, radix)->Some_0;
        let d = digit_value(s.last())->Some_0;
        assert(v <= v * radix + d) by (nonlinear_arith)
            requires
                radix >= 1,
        ;
    }
}

fn digit_of(c: char) -> (r: Option<u32>)
    ensures
        match r {
            Some(d) => digit_value(c) == Some(d as nat),
            None => digit_value(c) is None,
        },
{
    let u = c as u32;
    if 0x30 <= u && u <= 0x39 {
        Some(u - 0x30)
    } else if 0x61 <= u && u <= 0x7a {
        Some(u - 0x61 + 10)
    } else if 0x41 <= u && u <= 0x5a {
        Some(u - 0x41 + 10)
    } else {
        None
    }
}

fn parse_digits(s: &str, from: usize, radix: u32) -> (r: Option<u128>)
    requires
        from <= s@.len(),
        2 <= radix <= 36,
    ensures
        r == radix_u128(s@.skip(from as int), radix as nat),
{
    let n = s.unicode_len();
    let ghost t = s@.skip(from as int);
    let mut start = from;
    if from < n && s.get_char(from) == '+' {
        start = from + 1;
    }
    let ghost body = s@.skip(start as int);
    assert(body =~= (if t.len() > 0 && t[0] == '+' {
        t.drop_first()
    } else {
        t
    }));
    if start == n {
        return None;
    }
    let mut acc: u128 = 0;
    let mut i = start;
    assert(radix_u128(t, radix as nat) == bounded_u128(digits_value(body, radix as nat)));
    assert(body.take(0) =~= Seq::<char>::empty());
    while i < n
        invariant
            start <= i <= n,
            n == s@.len(),
            2 <= radix <= 36,
            body == s@.skip(start as int),
            body.len() > 0,
            radix_u128(s@.skip(from as int), radix as nat) == bounded_u128(
                digits_value(body, radix as nat),
            ),
            digits_value(body.take(i - start), radix as nat) == Some(acc as nat),
        decreases n - i,
    {
        let c = s.get_char(i);
        assert(body.take(i + 1 - start).drop_last() =~= body.take(i - start));
        assert(body.take(i + 1 - start).last() == c);
        let d = match digit_of(c) {
            Some(d) => d,
            None => {
                proof {
                    if digits_value(body, radix as nat) is Some {
                        lemma_digits_prefix(body, radix as nat, i + 1 - start);
                    }
                }
                return None;
            },
        };
        if d >= radix {
            proof {
                if digits_value(body, radix as nat) is Some {
                    lemma_digits_prefix(body, radix as nat, i + 1 - start);
                }
            }
            return None;
        }
        let next = match acc.checked_mul(radix as u128) {
            Some(m) => m.checked_add(d as u128),
            None => None,
        };
        match next {
            Some(v) => {
                acc = v;
            },
            None => {
                proof {
                    assert(acc * radix + d > u128::MAX) by (nonlinear_arith)
                        requires
                            acc * radix > u128::MAX || acc * radix + d > u128::MAX,
                            d >= 0,
                    ;
                    if digits_value(body, radix as nat) is Some {
                        lemma_digits_prefix(body, radix as nat, i + 1 - start);
                    }
                }
                return None;
            },
        }
        i = i + 1;
    }
    assert(body.take(n - start) =~= body);
    Some(acc)
}

/// Parses a `u128` written in decimal with an optional leading `+`.
pub fn parse_decimal_u128(s: &str) -> (r: Option<u128>)
    ensures
        r == radix_u128(s@, 10),
{
    let r = parse_digits(s, 0, 10);
    assert(s@.skip(0) =~= s@);
    r
}

/// The message of a field that is not a number.
pub open spec fn invalid_number_message(value: Seq<char>) -> Seq<char> {
    "invalid numeric value: "@ + value
}

/// Parses a decimal or `0x`-prefixed hexadecimal `u128`, ignoring
/// surrounding whitespace.
pub fn parse_u128(value: &str) -> (r: Result<u128, String>)
    ensures
        match r {
            Ok(v) => fixture_number(value@) == Some(v),
            Err(msg) => fixture_number(value@) is None && msg@ == invalid_number_message(value@),
        },
{
    let t = trim(value);
    let n = t.unicode_len();
    let parsed = if n == 0 {
        None
    } else if n >= 2 && t.get_char(0) == '0' && (t.get_char(1) == 'x' || t.get_char(1) == 'X') {
        if n == 2 {
            None
        } else {
            parse_digits(t, 2, 16)
        }
    } else {
        let r = parse_digits(t, 0, 10);
        assert(t@.skip(0) =~= t@);
        r
    };
    match parsed {
        Some(v) => Ok(v),
        None => {
            let mut msg = String::from_str("invalid numeric value: ");
            msg.append(value);
            Err(msg)
        },
    }
}


/// The value of an ASCII hexadecimal digit byte.
pub open spec fn hex_digit_byte(b: u8) -> Option<u8> {
    if 0x30 <= b <= 0x39 {
        Some((b - 0x30) as u8)
    } else if 0x61 <= b <= 0x66 {
        Some((b - 0x61 + 10) as u8)
    } else if 0x41 <= b <= 0x46 {
        Some((b - 0x41 + 10) as u8)
    } else {
        None
    }
}

/// The byte a two-byte hexadecimal field denotes: two hex digits, or `+`
/// and one hex digit.
pub open spec fn hex_pair_value(p0: u8, p1: u8) -> Option<u8> {
    if p0 == 0x2b {
        hex_digit_byte(p1)
    } else {
        match (hex_digit_byte(p0), hex_digit_byte(p1)) {
            (Some(a), Some(b)) => Some((a * 16 + b) as u8),
            _ => None,
        }
    }
}

/// The bytes of an address field after its optional `0x` prefix.
pub open spec fn address_hex(b: Seq<u8>) -> Seq<u8> {
    if b.len() >= 2 && b[0] == 0x30 && b[1] == 0x78 {
        b.skip(2)
    } else {
        b
    }
}

/// Whether all twenty pairs of a 40-byte field are hexadecimal.
pub open spec fn address_pairs_valid(hex: Seq<u8>) -> bool {
    forall|k: int| 0 <= k < 20 ==> #[trigger] hex_pair_value(hex[2 * k], hex[2 * k + 1]) is Some
}

/// The twenty bytes of a 40-byte hexadecimal field.
pub open spec fn address_pair_bytes(hex: Seq<u8>) -> Seq<u8> {
    Seq::new(20, |k: int| hex_pair_value(hex[2 * k], hex[2 * k + 1])->Some_0)
}

/// Whether reading the pairs of `hex` from pair `k` on, stopping at the first
/// invalid pair, slices the text only at character boundaries (a slice end
/// inside a multi-byte character would abort).
pub open spec fn pairs_split_on_char_boundaries(hex: Seq<u8>, k: int) -> bool
    decreases 20 - k,
{
    if k < 0 || k >= 20 {
        true
    } else if 2 * k + 2 < hex.len() && vstd::utf8::is_continuation_byte(hex[2 * k + 2]) {
        false
    } else if hex_pair_value(hex[2 * k], hex[2 * k + 1]) is None {
        true
    } else {
        pairs_split_on_char_boundaries(hex, k + 1)
    }
}

/// Whether parsing `input` as an address stays within character boundaries.
pub open spec fn address_field_splits_cleanly(input: &str) -> bool {
    let hex = address_hex(input.spec_bytes());
    hex.len() != 40 || pairs_split_on_char_boundaries(hex, 0)
}

/// The message of a field of the wrong length.
pub open spec fn address_length_message(input: Seq<char>) -> Seq<char> {
    "address must have 40 hex chars: "@ + input
}

/// The message of a field with a non-hexadecimal pair.
pub open spec fn address_hex_message(input: Seq<char>) -> Seq<char> {
    "invalid hex byte in address: "@ + input
}

fn hex_digit_of(b: u8) -> (r: Option<u8>)
    ensures
        r == hex_digit_byte(b),
{
    if 0x30 <= b && b <= 0x39 {
        Some(b - 0x30)
    } else if 0x61 <= b && b <= 0x66 {
        Some(b - 0x61 + 10)
    } else if 0x41 <= b && b <= 0x46 {
        Some(b - 0x41 + 10)
    } else {
        None
    }
}

fn hex_pair_of(p0: u8, p1: u8) -> (r: Option<u8>)
    ensures
        r == hex_pair_value(p0, p1),
{
    if p0 == 0x2b {
        hex_digit_of(p1)
    } else {
        match (hex_digit_of(p0), hex_digit_of(p1)) {
            (Some(a), Some(b)) => Some(a * 16 + b),
            _ => None,
        }
    }
}

/// Parses a 20-byte address written as 40 hexadecimal characters, with an
/// optional `0x` prefix.
pub fn parse_address(input: &str) -> (r: Result<Address, String>)
    requires
        address_field_splits_cleanly(input),
    ensures
        ({
            let hex = address_hex(input.spec_bytes());
            match r {
                Ok(a) => hex.len() == 40 && address_pairs_valid(hex) && a@ == address_pair_bytes(
                    hex,
                ),
                Err(msg) => if hex.len() != 40 {
                    msg@ == address_length_message(input@)
                } else {
                    !address_pairs_valid(hex) && msg@ == address_hex_message(input@)
                },
            }
        }),
{
    let b = input.as_bytes();
    let offset: usize = if b.len() >= 2 && b[0] == 0x30 && b[1] == 0x78 {
        2
    } else {
        0
    };
    let ghost hex = address_hex(input.spec_bytes());
    assert(hex =~= b@.skip(offset as int));
    if b.len() - offset != 40 {
        let mut msg = String::from_str("address must have 40 hex chars: ");
        msg.append(input);
        return Err(msg);
    }
    let mut out = [0u8; 20];
    let mut k: usize = 0;
    while k < 20
        invariant
            k <= 20,
            offset <= 2,
            hex == b@.skip(offset as int),
            hex == address_hex(input.spec_bytes()),
            hex.len() == 40,
            offset + 40 == b@.len(),
            forall|j: int|
                0 <= j < k ==> hex_pair_value(hex[2 * j], hex[2 * j + 1]) == Some(#[trigger] out[j]),
        decreases 20 - k,
    {
        let p0 = b[offset + 2 * k];
        let p1 = b[offset + 2 * k + 1];
        assert(p0 == hex[2 * k] && p1 == hex[2 * k + 1]);
        match hex_pair_of(p0, p1) {
            Some(v) => {
                out[k] = v;
            },
            None => {
                assert(!address_pairs_valid(hex)) by {
                    assert(hex_pair_value(hex[2 * k as int], hex[2 * k + 1]) is None);
                }
                let mut msg = String::from_str("invalid hex byte in address: ");
                msg.append(input);
                return Err(msg);
            },
        }
        k = k + 1;
    }
    assert forall|j: int| 0 <= j < 20 implies #[trigger] hex_pair_value(
        hex[2 * j],
        hex[2 * j + 1],
    ) is Some by {
        assert(hex_pair_value(hex[2 * j], hex[2 * j + 1]) == Some(out[j]));
    }
    assert forall|j: int| 0 <= j < 20 implies out@[j] == address_pair_bytes(hex)[j] by {
        assert(hex_pair_value(hex[2 * j], hex[2 * j + 1]) == Some(out[j]));
    }
    assert(out@ =~= address_pair_bytes(hex));
    Ok(out)
}

/// Whether parsing `input` as an address stays within character boundaries
/// (see `address_field_splits_cleanly`).
pub fn address_splits_cleanly(input: &str) -> (r: bool)
    ensures
        r == address_field_splits_cleanly(input),
{
    let b = input.as_bytes();
    let offset: usize = if b.len() >= 2 && b[0] == 0x30 && b[1] == 0x78 {
        2
    } else {
        0
    };
    let ghost hex = address_hex(input.spec_bytes());
    assert(hex =~= b@.skip(offset as int));
    if b.len() - offset != 40 {
        return true;
    }
    let mut k: usize = 0;
    while k < 20
        invariant
            k <= 20,
            offset <= 2,
            hex == b@.skip(offset as int),
            hex == address_hex(input.spec_bytes()),
            hex.len() == 40,
            offset + 40 == b@.len(),
            pairs_split_on_char_boundaries(hex, 0) == pairs_split_on_char_boundaries(hex, k as int),
        decreases 20 - k,
    {
        let next = offset + 2 * k + 2;
        if 2 * k + 2 < 40 && 0x80 <= b[next] && b[next] <= 0xbf {
            assert(hex[2 * k + 2] == b@[next as int]);
            return false;
        }
        let p0 = b[offset + 2 * k];
        let p1 = b[offset + 2 * k + 1];
        assert(p0 == hex[2 * k] && p1 == hex[2 * k + 1]);
        if hex_pair_of(p0, p1).is_none() {
            return true;
        }
        k = k + 1;
    }
    true
}

/// The 40 lowercase hexadecimal digits of an address.
pub open spec fn address_hex_chars(a: Address) -> Seq<char> {
    Seq::new(
        40,
        |i: int|
            if i % 2 == 0 {
                digit_char((a[i / 2] / 16) as nat)
            } else {
                digit_char((a[i / 2] % 16) as nat)
            },
    )
}

/// The rendering of an address: `0x` and its 40 lowercase hexadecimal digits.
pub open spec fn address_text(a: Address) -> Seq<char> {
    "0x"@ + address_hex_chars(a)
}

fn push_hex_digit(out: &mut String, d: u8)
    requires
        d < 16,
    ensures
        final(out)@ == old(out)@.push(digit_char(d as nat)),
{
    push_digits(out, d as u128, 16);
    assert(digits_of(d as nat, 16) =~= seq![digit_char(d as nat)]);
}

/// Renders an address as `0x` and 40 lowercase hexadecimal digits.
pub fn format_address(address: &Address) -> (r: String)
    ensures
        r@ == address_text(*address),
{
    let mut out = String::from_str("0x");
    let ghost prefix = out@;
    let mut i: usize = 0;
    while i < 20
        invariant
            i <= 20,
            prefix == "0x"@,
            out@ == prefix + address_hex_chars(*address).take(2 * i),
        decreases 20 - i,
    {
        let byte = address[i];
        push_hex_digit(&mut out, byte / 16);
        push_hex_digit(&mut out, byte % 16);
        let ghost chars = address_hex_chars(*address);
        assert(chars[2 * i as int] == digit_char((byte / 16) as nat));
        assert(chars[2 * i + 1] == digit_char((byte % 16) as nat));
        assert(chars.take(2 * i + 2) =~= chars.take(2 * i).push(
            digit_char((byte / 16) as nat),
        ).push(digit_char((byte % 16) as nat)));
        i = i + 1;
    }
    assert(address_hex_chars(*address).take(40) =~= address_hex_chars(*address));
    out
}


/// An account balance line of a fixture.
#[derive(Debug, Clone, PartialEq, Eq)]
pub struct FixtureBalance {
    pub address: String,
    pub balance: String,
}

/// A transfer of a fixture.
#[derive(Debug, Clone, PartialEq, Eq)]
pub struct FixtureTx {
    pub from: String,
    pub to: Option<String>,
    pub nonce: u64,
    pub value: String,
}

/// What a fixture expects after its transfers.
#[derive(Debug, Clone, PartialEq, Eq)]
pub struct FixtureExpected {
    pub success: bool,
    pub balances: Vec<FixtureBalance>,
}

/// A state-test fixture: initial balances, transfers and expectations.
#[derive(Debug, Clone, PartialEq, Eq)]
pub struct Fixture {
    pub name: String,
    pub initial_accounts: Vec<FixtureBalance>,
    pub transactions: Vec<FixtureTx>,
    pub expected: FixtureExpected,
}

/// One account's balance after a fixture ran.
#[derive(Debug, Clone, PartialEq, Eq)]
pub struct BalanceSnapshot {
    pub address: String,
    pub balance: String,
}

/// The outcome of running a fixture.
#[derive(Debug, Clone, PartialEq, Eq)]
pub struct FixtureRun {
    pub name: String,
    pub passed: bool,
    pub expected_success: bool,
    pub actual_success: bool,
    pub mismatches: Vec<String>,
    pub actual_balances: Vec<BalanceSnapshot>,
}

/// The abstract content of a `FixtureRun`.
pub struct FixtureRunView {
    pub name: Seq<char>,
    pub passed: bool,
    pub expected_success: bool,
    pub actual_success: bool,
    pub mismatches: Seq<Seq<char>>,
    pub actual_balances: Seq<(Seq<char>, Seq<char>)>,
}

impl View for FixtureRun {
    type V = FixtureRunView;

    open spec fn view(&self) -> FixtureRunView {
        FixtureRunView {
            name: self.name@,
            passed: self.passed,
            expected_success: self.expected_success,
            actual_success: self.actual_success,
            mismatches: self.mismatches@.map_values(|m: String| m@),
            actual_balances: self.actual_balances@.map_values(
                |b: BalanceSnapshot| (b.address@, b.balance@),
            ),
        }
    }
}

/// The address a fixture field denotes, or the message refusing it.
pub open spec fn field_address(s: Seq<char>) -> Result<Address, Seq<char>> {
    let hex = address_hex(vstd::utf8::encode_utf8(s));
    if hex.len() != 40 {
        Err(address_length_message(s))
    } else if !address_pairs_valid(hex) {
        Err(address_hex_message(s))
    } else {
        Ok(choose|a: Address| a@ == address_pair_bytes(hex))
    }
}

/// The number a fixture field denotes, or the message refusing it.
pub open spec fn field_number(s: Seq<char>) -> Result<u128, Seq<char>> {
    match fixture_number(s) {
        Some(v) => Ok(v),
        None => Err(invalid_number_message(s)),
    }
}

/// Whether parsing the address field `s` stays within character boundaries.
pub open spec fn address_chars_split_cleanly(s: Seq<char>) -> bool {
    let hex = address_hex(vstd::utf8::encode_utf8(s));
    hex.len() != 40 || pairs_split_on_char_boundaries(hex, 0)
}

/// Whether every address field of `f` can be parsed within character boundaries.
pub open spec fn fixture_addresses_split_cleanly(f: Fixture) -> bool {
    &&& forall|i: int|
        0 <= i < f.initial_accounts@.len() ==> address_chars_split_cleanly(
            #[trigger] f.initial_accounts@[i].address@,
        )
    &&& forall|i: int|
        0 <= i < f.transactions@.len() ==> address_chars_split_cleanly(
            (#[trigger] f.transactions@[i]).from@,
        ) && (f.transactions@[i].to matches Some(t) ==> address_chars_split_cleanly(t@))
    &&& forall|i: int|
        0 <= i < f.expected.balances@.len() ==> address_chars_split_cleanly(
            #[trigger] f.expected.balances@[i].address@,
        )
}

proof fn lemma_field_address_ok(s: Seq<char>, a: Address)
    requires
        address_hex(vstd::utf8::encode_utf8(s)).len() == 40,
        address_pairs_valid(address_hex(vstd::utf8::encode_utf8(s))),
        a@ == address_pair_bytes(address_hex(vstd::utf8::encode_utf8(s))),
    ensures
        field_address(s) == Ok::<Address, Seq<char>>(a),
{
    let hex = address_hex(vstd::utf8::encode_utf8(s));
    let b = choose|b: Address| b@ == address_pair_bytes(hex);
    assert(b@ == address_pair_bytes(hex));
    assert(b =~= a);
}

fn read_address(s: &String) -> (r: Result<Address, String>)
    requires
        address_chars_split_cleanly(s@),
    ensures
        match r {
            Ok(a) => field_address(s@) == Ok::<Address, Seq<char>>(a),
            Err(msg) => field_address(s@) == Err::<Address, Seq<char>>(msg@),
        },
{
    let r = parse_address(s.as_str());
    match r {
        Ok(a) => {
            proof {
                lemma_field_address_ok(s@, a);
            }
            Ok(a)
        },
        Err(msg) => Err(msg),
    }
}

fn read_number(s: &String) -> (r: Result<u128, String>)
    ensures
        match r {
            Ok(v) => field_number(s@) == Ok::<u128, Seq<char>>(v),
            Err(msg) => field_number(s@) == Err::<u128, Seq<char>>(msg@),
        },
{
    parse_u128(s.as_str())
}

/// An account holding `balance` and nothing else.
pub open spec fn funded_account(balance: u128) -> AccountView {
    AccountView { balance, ..empty_account() }
}

/// The initial state of a fixture, or the message of its first bad field.
pub open spec fn fixture_setup(accts: Seq<FixtureBalance>) -> Result<AccountsMap, Seq<char>>
    decreases accts.len(),
{
    if accts.len() == 0 {
        Ok(Map::empty())
    } else {
        match fixture_setup(accts.drop_last()) {
            Err(e) => Err(e),
            Ok(m) => match field_address(accts.last().address@) {
                Err(e) => Err(e),
                Ok(a) => match field_number(accts.last().balance@) {
                    Err(e) => Err(e),
                    Ok(v) => Ok(m.insert(address_key_of(a), funded_account(v))),
                },
            },
        }
    }
}

/// A transfer: sender, recipient (none for a creation) and value.
pub type Transfer = (Address, Option<Address>, u128);

/// The transfers of a fixture, or the message of its first bad field.
pub open spec fn fixture_transfers(txs: Seq<FixtureTx>) -> Result<Seq<Transfer>, Seq<char>>
    decreases txs.len(),
{
    if txs.len() == 0 {
        Ok(Seq::empty())
    } else {
        match fixture_transfers(txs.drop_last()) {
            Err(e) => Err(e),
            Ok(ts) => {
                let t = txs.last();
                match field_address(t.from@) {
                    Err(e) => Err(e),
                    Ok(from) => {
                        let to: Result<Option<Address>, Seq<char>> = match t.to {
                            None => Ok(None),
                            Some(x) => match field_address(x@) {
                                Err(e) => Err(e),
                                Ok(a) => Ok(Some(a)),
                            },
                        };
                        match to {
                            Err(e) => Err(e),
                            Ok(to) => match field_number(t.value@) {
                                Err(e) => Err(e),
                                Ok(v) => Ok(ts.push((from, to, v))),
                            },
                        }
                    },
                }
            },
        }
    }
}

/// State and outcome of one transfer (see `apply_tx_result`).
pub open spec fn transfer_step(m: AccountsMap, t: Transfer) -> (
    AccountsMap,
    Result<(), StateError>,
) {
    if account_or_empty(m, t.0).balance < t.2 {
        (m, Err(insufficient(m, t.0, t.2)))
    } else {
        match t.1 {
            Some(to) => (after_credit(after_debit(m, t.0, t.2), to, t.2), Ok(())),
            None => (after_debit(m, t.0, t.2), Ok(())),
        }
    }
}

/// State and outcome of transfers applied in order, stopping at the first refusal.
pub open spec fn apply_transfers(m: AccountsMap, ts: Seq<Transfer>) -> (
    AccountsMap,
    Result<(), StateError>,
)
    decreases ts.len(),
{
    if ts.len() == 0 {
        (m, Ok(()))
    } else {
        let (m1, r) = transfer_step(m, ts[0]);
        if r is Err {
            (m1, r)
        } else {
            apply_transfers(m1, ts.drop_first())
        }
    }
}

/// Whether `tx` moves `t.2` from `t.0` to `t.1`.
pub open spec fn carries(tx: Transaction, t: Transfer) -> bool {
    tx.spec_from() == t.0 && tx.spec_to() == t.1 && tx.spec_value() == t.2
}

proof fn lemma_transactions_are_transfers(m: AccountsMap, txs: Seq<Transaction>, ts: Seq<Transfer>)
    requires
        txs.len() == ts.len(),
        forall|i: int| 0 <= i < txs.len() ==> carries(#[trigger] txs[i], ts[i]),
    ensures
        apply_txs_result(m, txs) == apply_transfers(m, ts),
    decreases txs.len(),
{
    if txs.len() > 0 {
        assert(carries(txs[0], ts[0]));
        let (m1, r) = apply_tx_result(m, txs[0]);
        assert((m1, r) == transfer_step(m, ts[0]));
        if r is Ok {
            assert forall|i: int| 0 <= i < txs.drop_first().len() implies carries(
                #[trigger] txs.drop_first()[i],
                ts.drop_first()[i],
            ) by {
                assert(carries(txs[i + 1], ts[i + 1]));
            }
            lemma_transactions_are_transfers(m1, txs.drop_first(), ts.drop_first());
        }
    }
}

fn setup_state(accounts: &Vec<FixtureBalance>) -> (r: Result<InMemoryState, String>)
    requires
        forall|i: int|
            0 <= i < accounts@.len() ==> address_chars_split_cleanly(
                #[trigger] accounts@[i].address@,
            ),
    ensures
        match r {
            Ok(st) => fixture_setup(accounts@) == Ok::<AccountsMap, Seq<char>>(st.accounts()),
            Err(msg) => fixture_setup(accounts@) == Err::<AccountsMap, Seq<char>>(msg@),
        },
{
    let mut state = InMemoryState::new();
    let mut i: usize = 0;
    assert(accounts@.take(0) =~= Seq::<FixtureBalance>::empty());
    while i < accounts.len()
        invariant
            i <= accounts@.len(),
            forall|j: int|
                0 <= j < accounts@.len() ==> address_chars_split_cleanly(
                    #[trigger] accounts@[j].address@,
                ),
            fixture_setup(accounts@.take(i as int)) == Ok::<AccountsMap, Seq<char>>(
                state.accounts(),
            ),
        decreases accounts@.len() - i,
    {
        let entry = &accounts[i];
        let ghost prefix = accounts@.take(i + 1);
        assert(prefix.drop_last() =~= accounts@.take(i as int));
        assert(prefix.last() == accounts@[i as int]);
        let address = match read_address(&entry.address) {
            Ok(a) => a,
            Err(msg) => {
                proof {
                    lemma_setup_error_sticks(accounts@, i + 1);
                }
                return Err(msg);
            },
        };
        let balance = match read_number(&entry.balance) {
            Ok(v) => v,
            Err(msg) => {
                proof {
                    lemma_setup_error_sticks(accounts@, i + 1);
                }
                return Err(msg);
            },
        };
        let account = Account { balance, ..Account::default() };
        state.upsert_account(address, account);
        assert(account@ == funded_account(balance));
        i = i + 1;
    }
    assert(accounts@.take(accounts@.len() as int) =~= accounts@);
    Ok(state)
}

proof fn lemma_setup_error_sticks(accts: Seq<FixtureBalance>, n: int)
    requires
        0 <= n <= accts.len(),
        fixture_setup(accts.take(n)) is Err,
    ensures
        fixture_setup(accts) == fixture_setup(accts.take(n)),
    decreases accts.len() - n,
{
    if n < accts.len() {
        assert(accts.take(n + 1).drop_last() =~= accts.take(n));
        lemma_setup_error_sticks(accts, n + 1);
    } else {
        assert(accts.take(n) =~= accts);
    }
}

proof fn lemma_transfers_error_sticks(txs: Seq<FixtureTx>, n: int)
    requires
        0 <= n <= txs.len(),
        fixture_transfers(txs.take(n)) is Err,
    ensures
        fixture_transfers(txs) == fixture_transfers(txs.take(n)),
    decreases txs.len() - n,
{
    if n < txs.len() {
        assert(txs.take(n + 1).drop_last() =~= txs.take(n));
        lemma_transfers_error_sticks(txs, n + 1);
    } else {
        assert(txs.take(n) =~= txs);
    }
}

fn build_transactions(txs: &Vec<FixtureTx>) -> (r: Result<Vec<Transaction>, String>)
    requires
        forall|i: int|
            0 <= i < txs@.len() ==> address_chars_split_cleanly((#[trigger] txs@[i]).from@) && (
            txs@[i].to matches Some(t) ==> address_chars_split_cleanly(t@)),
    ensures
        match r {
            Ok(v) => fixture_transfers(txs@) is Ok && v@.len() == fixture_transfers(txs@)->Ok_0.len()
                && forall|i: int|
                0 <= i < v@.len() ==> carries(#[trigger] v@[i], fixture_transfers(txs@)->Ok_0[i]),
            Err(msg) => fixture_transfers(txs@) == Err::<Seq<Transfer>, Seq<char>>(msg@),
        },
{
    let mut out: Vec<Transaction> = Vec::new();
    let mut i: usize = 0;
    assert(txs@.take(0) =~= Seq::<FixtureTx>::empty());
    while i < txs.len()
        invariant
            i <= txs@.len(),
            forall|j: int|
                0 <= j < txs@.len() ==> address_chars_split_cleanly((#[trigger] txs@[j]).from@) && (
                txs@[j].to matches Some(t) ==> address_chars_split_cleanly(t@)),
            fixture_transfers(txs@.take(i as int)) is Ok,
            out@.len() == fixture_transfers(txs@.take(i as int))->Ok_0.len(),
            forall|j: int|
                0 <= j < out@.len() ==> carries(
                    #[trigger] out@[j],
                    fixture_transfers(txs@.take(i as int))->Ok_0[j],
                ),
        decreases txs@.len() - i,
    {
        let tx = &txs[i];
        let ghost prefix = txs@.take(i + 1);
        assert(prefix.drop_last() =~= txs@.take(i as int));
        assert(prefix.last() == txs@[i as int]);
        assert(address_chars_split_cleanly(txs@[i as int].from@));
        let from = match read_address(&tx.from) {
            Ok(a) => a,
            Err(msg) => {
                proof {
                    lemma_transfers_error_sticks(txs@, i + 1);
                }
                return Err(msg);
            },
        };
        let to = match &tx.to {
            None => None,
            Some(s) => match read_address(s) {
                Ok(a) => Some(a),
                Err(msg) => {
                    proof {
                        lemma_transfers_error_sticks(txs@, i + 1);
                    }
                    return Err(msg);
                },
            },
        };
        let value = match read_number(&tx.value) {
            Ok(v) => v,
            Err(msg) => {
                proof {
                    lemma_transfers_error_sticks(txs@, i + 1);
                }
                return Err(msg);
            },
        };
        out.push(
            Transaction::Legacy(
                LegacyTx {
                    nonce: tx.nonce,
                    from,
                    to,
                    gas_limit: 21_000,
                    gas_price: 1,
                    value,
                    data: Vec::new(),
                },
            ),
        );
        i = i + 1;
    }
    assert(txs@.take(txs@.len() as int) =~= txs@);
    Ok(out)
}


/// The message of a fixture that expects two balances for one address.
pub open spec fn duplicate_message(name: Seq<char>, address: Seq<char>) -> Seq<char> {
    "fixture '"@ + name + "' has duplicate expected balance entry for "@ + address
}

/// The expected balances of a fixture by address key (with the address), or
/// the message of its first bad or repeated entry.
pub open spec fn expected_table(ebs: Seq<FixtureBalance>, name: Seq<char>) -> Result<
    Map<AddressKey, (Address, u128)>,
    Seq<char>,
>
    decreases ebs.len(),
{
    if ebs.len() == 0 {
        Ok(Map::empty())
    } else {
        match expected_table(ebs.drop_last(), name) {
            Err(e) => Err(e),
            Ok(m) => match field_address(ebs.last().address@) {
                Err(e) => Err(e),
                Ok(a) => match field_number(ebs.last().balance@) {
                    Err(e) => Err(e),
                    Ok(v) => if m.contains_key(address_key_of(a)) {
                        Err(duplicate_message(name, ebs.last().address@))
                    } else {
                        Ok(m.insert(address_key_of(a), (a, v)))
                    },
                },
            },
        }
    }
}

proof fn lemma_table_error_sticks(ebs: Seq<FixtureBalance>, name: Seq<char>, n: int)
    requires
        0 <= n <= ebs.len(),
        expected_table(ebs.take(n), name) is Err,
    ensures
        expected_table(ebs, name) == expected_table(ebs.take(n), name),
    decreases ebs.len() - n,
{
    if n < ebs.len() {
        assert(ebs.take(n + 1).drop_last() =~= ebs.take(n));
        lemma_table_error_sticks(ebs, name, n + 1);
    } else {
        assert(ebs.take(n) =~= ebs);
    }
}

fn build_expected_table(balances: &Vec<FixtureBalance>, name: &String) -> (r: Result<
    BTreeMap<AddressKey, (Address, u128)>,
    String,
>)
    requires
        forall|i: int|
            0 <= i < balances@.len() ==> address_chars_split_cleanly(
                #[trigger] balances@[i].address@,
            ),
    ensures
        match r {
            Ok(t) => expected_table(balances@, name@) == Ok::<
                Map<AddressKey, (Address, u128)>,
                Seq<char>,
            >(t@),
            Err(msg) => expected_table(balances@, name@) == Err::<
                Map<AddressKey, (Address, u128)>,
                Seq<char>,
            >(msg@),
        },
{
    let mut table: BTreeMap<AddressKey, (Address, u128)> = BTreeMap::new();
    let mut i: usize = 0;
    assert(balances@.take(0) =~= Seq::<FixtureBalance>::empty());
    while i < balances.len()
        invariant
            i <= balances@.len(),
            forall|j: int|
                0 <= j < balances@.len() ==> address_chars_split_cleanly(
                    #[trigger] balances@[j].address@,
                ),
            expected_table(balances@.take(i as int), name@) == Ok::<
                Map<AddressKey, (Address, u128)>,
                Seq<char>,
            >(table@),
        decreases balances@.len() - i,
    {
        let entry = &balances[i];
        let ghost prefix = balances@.take(i + 1);
        assert(prefix.drop_last() =~= balances@.take(i as int));
        assert(prefix.last() == balances@[i as int]);
        let address = match read_address(&entry.address) {
            Ok(a) => a,
            Err(msg) => {
                proof {
                    lemma_table_error_sticks(balances@, name@, i + 1);
                }
                return Err(msg);
            },
        };
        let value = match read_number(&entry.balance) {
            Ok(v) => v,
            Err(msg) => {
                proof {
                    lemma_table_error_sticks(balances@, name@, i + 1);
                }
                return Err(msg);
            },
        };
        let k = address_key(&address);
        if table.contains_key(&k) {
            let mut msg = String::from_str("fixture '");
            msg.append(name.as_str());
            msg.append("' has duplicate expected balance entry for ");
            msg.append(entry.address.as_str());
            proof {
                lemma_table_error_sticks(balances@, name@, i + 1);
            }
            return Err(msg);
        }
        table.insert(k, (address, value));
        i = i + 1;
    }
    assert(balances@.take(balances@.len() as int) =~= balances@);
    Ok(table)
}

/// The text of a boolean.
pub open spec fn bool_text(b: bool) -> Seq<char> {
    if b {
        "true"@
    } else {
        "false"@
    }
}

fn bool_str(b: bool) -> (r: &'static str)
    ensures
        r@ == bool_text(b),
{
    if b {
        "true"
    } else {
        "false"
    }
}

/// The mismatch line of an unexpected outcome, if any.
pub open spec fn success_lines(expected: bool, actual: bool) -> Seq<Seq<char>> {
    if expected != actual {
        seq!["success mismatch: expected="@ + bool_text(expected) + ", actual="@ + bool_text(actual)]
    } else {
        Seq::empty()
    }
}

/// The balance held under key `k` (zero when no account is there).
pub open spec fn balance_in(post: AccountsMap, k: AddressKey) -> u128 {
    if post.contains_key(k) {
        post[k].balance
    } else {
        0
    }
}

/// The address whose key is `k`.
pub open spec fn address_for_key(k: AddressKey) -> Address {
    choose|a: Address| address_key_of(a) == k
}

/// The line reporting a balance that differs from the expected one.
pub open spec fn balance_mismatch_line(k: AddressKey, expected: u128, actual: u128) -> Seq<char> {
    "balance mismatch for "@ + address_text(address_for_key(k)) + ": expected="@ + digits_of(
        expected as nat,
        10,
    ) + ", actual="@ + digits_of(actual as nat, 10)
}

/// The lines of the expected balances (taken in the order of `ks`) that the
/// state does not hold.
pub open spec fn balance_lines(
    ks: Seq<AddressKey>,
    table: Map<AddressKey, (Address, u128)>,
    post: AccountsMap,
) -> Seq<Seq<char>>
    decreases ks.len(),
{
    if ks.len() == 0 {
        Seq::empty()
    } else {
        let k = ks.last();
        let rest = balance_lines(ks.drop_last(), table, post);
        if balance_in(post, k) != table[k].1 {
            rest.push(balance_mismatch_line(k, table[k].1, balance_in(post, k)))
        } else {
            rest
        }
    }
}

/// The line reporting an account that no expectation mentions.
pub open spec fn unexpected_line(k: AddressKey, balance: u128) -> Seq<char> {
    "unexpected account in post-state "@ + address_text(address_for_key(k)) + " with balance="@
        + digits_of(balance as nat, 10)
}

/// The lines of the accounts (taken in the order of `ks`) that no
/// expectation mentions.
pub open spec fn unexpected_lines(
    ks: Seq<AddressKey>,
    table: Map<AddressKey, (Address, u128)>,
    post: AccountsMap,
) -> Seq<Seq<char>>
    decreases ks.len(),
{
    if ks.len() == 0 {
        Seq::empty()
    } else {
        let k = ks.last();
        let rest = unexpected_lines(ks.drop_last(), table, post);
        if !table.contains_key(k) {
            rest.push(unexpected_line(k, balance_in(post, k)))
        } else {
            rest
        }
    }
}

/// The balance rows of the addresses `ks`.
pub open spec fn balance_rows(ks: Seq<AddressKey>, post: AccountsMap) -> Seq<
    (Seq<char>, Seq<char>),
> {
    ks.map_values(
        |k: AddressKey| (address_text(address_for_key(k)), digits_of(balance_in(post, k) as nat, 10)),
    )
}

/// The outcome of running a fixture: its first bad field's message, or its
/// run record. The initial balances are set up, the transfers applied in
/// order (stopping at the first refusal), and the post-state compared with
/// the expectations: the outcome, then each expected balance in address
/// order, then each account no expectation mentions in address order. The
/// balance rows list every address of either, in address order.
pub open spec fn fixture_outcome(f: Fixture) -> Result<FixtureRunView, Seq<char>> {
    match fixture_setup(f.initial_accounts@) {
        Err(e) => Err(e),
        Ok(m0) => match fixture_transfers(f.transactions@) {
            Err(e) => Err(e),
            Ok(ts) => {
                let (post, r) = apply_transfers(m0, ts);
                let actual = r is Ok;
                match expected_table(f.expected.balances@, f.name@) {
                    Err(e) => Err(e),
                    Ok(table) => {
                        let mismatches = success_lines(f.expected.success, actual) + balance_lines(
                            sorted_address_keys(table.dom()),
                            table,
                            post,
                        ) + unexpected_lines(sorted_address_keys(post.dom()), table, post);
                        Ok(
                            FixtureRunView {
                                name: f.name@,
                                passed: mismatches.len() == 0,
                                expected_success: f.expected.success,
                                actual_success: actual,
                                mismatches,
                                actual_balances: balance_rows(
                                    sorted_address_keys(table.dom() + post.dom()),
                                    post,
                                ),
                            },
                        )
                    },
                }
            },
        },
    }
}


proof fn lemma_address_for_key(a: Address)
    ensures
        address_for_key(address_key_of(a)) == a,
{
    let b = address_for_key(address_key_of(a));
    assert(address_key_of(b) == address_key_of(a));
    lemma_address_key_injective(a, b);
}

fn balance_at(snapshot: &StateSnapshot, a: &Address) -> (r: u128)
    ensures
        r == balance_in(snapshot@, address_key_of(*a)),
{
    match snapshot.get(a) {
        Some(account) => account.balance,
        None => 0,
    }
}

fn success_line(expected: bool, actual: bool) -> (r: String)
    requires
        expected != actual,
    ensures
        seq![r@] == success_lines(expected, actual),
{
    let mut line = String::from_str("success mismatch: expected=");
    line.append(bool_str(expected));
    line.append(", actual=");
    line.append(bool_str(actual));
    line
}

fn balance_mismatch_text(address: &Address, expected: u128, actual: u128) -> (r: String)
    ensures
        r@ == balance_mismatch_line(address_key_of(*address), expected, actual),
{
    proof {
        lemma_address_for_key(*address);
    }
    let mut line = String::from_str("balance mismatch for ");
    let text = format_address(address);
    line.append(text.as_str());
    line.append(": expected=");
    let e = decimal_string(expected);
    line.append(e.as_str());
    line.append(", actual=");
    let a = decimal_string(actual);
    line.append(a.as_str());
    line
}

fn unexpected_text(address: &Address, balance: u128) -> (r: String)
    ensures
        r@ == unexpected_line(address_key_of(*address), balance),
{
    proof {
        lemma_address_for_key(*address);
    }
    let mut line = String::from_str("unexpected account in post-state ");
    let text = format_address(address);
    line.append(text.as_str());
    line.append(" with balance=");
    let b = decimal_string(balance);
    line.append(b.as_str());
    line
}

/// The texts of a list of strings.
pub open spec fn texts(v: Seq<String>) -> Seq<Seq<char>> {
    v.map_values(|m: String| m@)
}

fn push_balance_mismatches(
    out: &mut Vec<String>,
    table: &BTreeMap<AddressKey, (Address, u128)>,
    snapshot: &StateSnapshot,
)
    ensures
        texts(final(out)@) == texts(old(out)@) + balance_lines(
            sorted_address_keys(table@.dom()),
            table@,
            snapshot@,
        ),
{
    let keys = sorted_keys_of_map(table);
    let ghost start = texts(out@);
    let mut i: usize = 0;
    assert(keys@.take(0) =~= Seq::<AddressKey>::empty());
    assert(start + balance_lines(keys@.take(0), table@, snapshot@) =~= start);
    while i < keys.len()
        invariant
            i <= keys@.len(),
            keys@ == sorted_address_keys(table@.dom()),
            keys@.to_set() == table@.dom(),
            texts(out@) == start + balance_lines(keys@.take(i as int), table@, snapshot@),
        decreases keys@.len() - i,
    {
        let k = keys[i];
        assert(keys@.to_set().contains(keys@[i as int]));
        let address = address_from_key(k);
        let expected = match table.get(&k) {
            Some(entry) => entry.1,
            None => 0,
        };
        let actual = balance_at(snapshot, &address);
        let ghost prefix = keys@.take(i + 1);
        assert(prefix.drop_last() =~= keys@.take(i as int));
        assert(prefix.last() == k);
        if actual != expected {
            let line = balance_mismatch_text(&address, expected, actual);
            let ghost before = out@;
            out.push(line);
            assert(texts(out@) =~= texts(before).push(line@));
            assert(texts(out@) =~= start + balance_lines(prefix, table@, snapshot@));
        }
        i = i + 1;
    }
    assert(keys@.take(keys@.len() as int) =~= keys@);
}

fn push_unexpected_accounts(
    out: &mut Vec<String>,
    table: &BTreeMap<AddressKey, (Address, u128)>,
    snapshot: &StateSnapshot,
)
    ensures
        texts(final(out)@) == texts(old(out)@) + unexpected_lines(
            sorted_address_keys(snapshot@.dom()),
            table@,
            snapshot@,
        ),
{
    let addresses = snapshot.addresses();
    let ghost keys = sorted_address_keys(snapshot@.dom());
    let ghost start = texts(out@);
    let mut i: usize = 0;
    assert(keys.take(0) =~= Seq::<AddressKey>::empty());
    assert(start + unexpected_lines(keys.take(0), table@, snapshot@) =~= start);
    while i < addresses.len()
        invariant
            i <= addresses@.len(),
            addresses@.len() == keys.len(),
            forall|j: int|
                0 <= j < addresses@.len() ==> address_key_of(#[trigger] addresses@[j]) == keys[j],
            texts(out@) == start + unexpected_lines(keys.take(i as int), table@, snapshot@),
        decreases addresses@.len() - i,
    {
        let address = addresses[i];
        assert(address_key_of(addresses@[i as int]) == keys[i as int]);
        let k = address_key(&address);
        let ghost prefix = keys.take(i + 1);
        assert(prefix.drop_last() =~= keys.take(i as int));
        assert(prefix.last() == k);
        if !table.contains_key(&k) {
            let balance = balance_at(snapshot, &address);
            let line = unexpected_text(&address, balance);
            let ghost before = out@;
            out.push(line);
            assert(texts(out@) =~= texts(before).push(line@));
            assert(texts(out@) =~= start + unexpected_lines(prefix, table@, snapshot@));
        }
        i = i + 1;
    }
    assert(keys.take(keys.len() as int) =~= keys);
}

fn address_union(
    table: &BTreeMap<AddressKey, (Address, u128)>,
    snapshot: &StateSnapshot,
) -> (r: BTreeMap<AddressKey, bool>)
    ensures
        r@.dom() == table@.dom() + snapshot@.dom(),
{
    let mut union: BTreeMap<AddressKey, bool> = BTreeMap::new();
    let table_keys = sorted_keys_of_map(table);
    let mut i: usize = 0;
    while i < table_keys.len()
        invariant
            i <= table_keys@.len(),
            forall|k: AddressKey|
                #[trigger] union@.contains_key(k) <==> exists|j: int|
                    0 <= j < i && table_keys@[j] == k,
        decreases table_keys@.len() - i,
    {
        let k = table_keys[i];
        union.insert(k, true);
        assert forall|x: AddressKey| #[trigger] union@.contains_key(x) <==> exists|j: int|
            0 <= j < i + 1 && table_keys@[j] == x by {
            if x == k {
                assert(table_keys@[i as int] == x);
            }
        }
        i = i + 1;
    }
    assert forall|k: AddressKey| #[trigger] union@.contains_key(k) <==> table@.dom().contains(k) by {
        assert(table_keys@.to_set().contains(k) <==> table_keys@.contains(k));
    }
    let addresses = snapshot.addresses();
    let ghost keys = sorted_address_keys(snapshot@.dom());
    let mut n: usize = 0;
    while n < addresses.len()
        invariant
            n <= addresses@.len(),
            addresses@.len() == keys.len(),
            forall|j: int|
                0 <= j < addresses@.len() ==> address_key_of(#[trigger] addresses@[j]) == keys[j],
            forall|k: AddressKey|
                #[trigger] union@.contains_key(k) <==> table@.dom().contains(k) || exists|j: int|
                    0 <= j < n && keys[j] == k,
        decreases addresses@.len() - n,
    {
        let k = address_key(&addresses[n]);
        assert(address_key_of(addresses@[n as int]) == keys[n as int]);
        union.insert(k, true);
        assert forall|x: AddressKey| #[trigger] union@.contains_key(x) <==> table@.dom().contains(x)
            || exists|j: int| 0 <= j < n + 1 && keys[j] == x by {
            if x == k {
                assert(keys[n as int] == x);
            }
        }
        n = n + 1;
    }
    assert forall|k: AddressKey| #[trigger] union@.contains_key(k) <==> (table@.dom()
        + snapshot@.dom()).contains(k) by {
        assert(keys.to_set().contains(k) <==> keys.contains(k));
    }
    assert(union@.dom() =~= table@.dom() + snapshot@.dom());
    union
}

fn balance_snapshots(
    table: &BTreeMap<AddressKey, (Address, u128)>,
    snapshot: &StateSnapshot,
) -> (r: Vec<BalanceSnapshot>)
    ensures
        r@.map_values(|b: BalanceSnapshot| (b.address@, b.balance@)) == balance_rows(
            sorted_address_keys(table@.dom() + snapshot@.dom()),
            snapshot@,
        ),
{
    let union = address_union(table, snapshot);
    let keys = sorted_keys_of_map(&union);
    let mut rows: Vec<BalanceSnapshot> = Vec::new();
    let mut i: usize = 0;
    while i < keys.len()
        invariant
            i <= keys@.len(),
            rows@.len() == i,
            forall|j: int|
                0 <= j < i ==> (#[trigger] rows@[j]).address@ == address_text(
                    address_for_key(keys@[j]),
                ) && rows@[j].balance@ == digits_of(balance_in(snapshot@, keys@[j]) as nat, 10),
        decreases keys@.len() - i,
    {
        let address = address_from_key(keys[i]);
        proof {
            lemma_address_for_key(address);
        }
        let balance = balance_at(snapshot, &address);
        rows.push(BalanceSnapshot { address: format_address(&address), balance: decimal_string(balance) });
        i = i + 1;
    }
    assert(rows@.map_values(|b: BalanceSnapshot| (b.address@, b.balance@)) =~= balance_rows(
        keys@,
        snapshot@,
    ));
    rows
}

/// Runs a fixture: sets up its initial balances, applies its transfers in
/// order and compares the post-state with its expectations. Fails with the
/// message of the first field that does not parse, or of a repeated
/// expected balance.
pub fn execute_fixture(fixture: &Fixture) -> (r: Result<FixtureRun, String>)
    requires
        fixture_addresses_split_cleanly(*fixture),
    ensures
        match r {
            Ok(run) => fixture_outcome(*fixture) == Ok::<FixtureRunView, Seq<char>>(run@),
            Err(msg) => fixture_outcome(*fixture) == Err::<FixtureRunView, Seq<char>>(msg@),
        },
{
    let mut state = match setup_state(&fixture.initial_accounts) {
        Ok(st) => st,
        Err(msg) => return Err(msg),
    };
    let ghost m0 = state.accounts();
    let txs = match build_transactions(&fixture.transactions) {
        Ok(v) => v,
        Err(msg) => return Err(msg),
    };
    let ghost ts = fixture_transfers(fixture.transactions@)->Ok_0;
    proof {
        lemma_transactions_are_transfers(m0, txs@, ts);
    }
    let applied = state.apply_transactions(txs.as_slice());
    let actual_success = applied.is_ok();
    let table = match build_expected_table(&fixture.expected.balances, &fixture.name) {
        Ok(t) => t,
        Err(msg) => return Err(msg),
    };
    let snapshot = state.snapshot();
    let mut mismatches: Vec<String> = Vec::new();
    if actual_success != fixture.expected.success {
        let line = success_line(fixture.expected.success, actual_success);
        mismatches.push(line);
        assert(texts(mismatches@) =~= success_lines(fixture.expected.success, actual_success));
    } else {
        assert(texts(mismatches@) =~= success_lines(fixture.expected.success, actual_success));
    }
    push_balance_mismatches(&mut mismatches, &table, &snapshot);
    push_unexpected_accounts(&mut mismatches, &table, &snapshot);
    let actual_balances = balance_snapshots(&table, &snapshot);
    let passed = mismatches.len() == 0;
    let run = FixtureRun {
        name: fixture.name.clone(),
        passed,
        expected_success: fixture.expected.success,
        actual_success,
        mismatches,
        actual_balances,
    };
    proof {
        let view = fixture_outcome(*fixture)->Ok_0;
        assert(run@.mismatches == view.mismatches);
        assert(run@ == view);
    }
    Ok(run)
}


fn field_splits_cleanly(s: &String) -> (r: bool)
    ensures
        r == address_chars_split_cleanly(s@),
{
    address_splits_cleanly(s.as_str())
}

/// Whether every address field of `fixture` can be parsed within character
/// boundaries (see `fixture_addresses_split_cleanly`).
pub fn fixture_splits_cleanly(fixture: &Fixture) -> (r: bool)
    ensures
        r == fixture_addresses_split_cleanly(*fixture),
{
    let mut i: usize = 0;
    while i < fixture.initial_accounts.len()
        invariant
            i <= fixture.initial_accounts@.len(),
            forall|j: int|
                0 <= j < i ==> address_chars_split_cleanly(
                    #[trigger] fixture.initial_accounts@[j].address@,
                ),
        decreases fixture.initial_accounts@.len() - i,
    {
        if !field_splits_cleanly(&fixture.initial_accounts[i].address) {
            return false;
        }
        i = i + 1;
    }
    let mut i: usize = 0;
    while i < fixture.transactions.len()
        invariant
            i <= fixture.transactions@.len(),
            forall|j: int|
                0 <= j < fixture.initial_accounts@.len() ==> address_chars_split_cleanly(
                    #[trigger] fixture.initial_accounts@[j].address@,
                ),
            forall|j: int|
                0 <= j < i ==> address_chars_split_cleanly((#[trigger] fixture.transactions@[j]).from@)
                    && (fixture.transactions@[j].to matches Some(t) ==> address_chars_split_cleanly(
                    t@,
                )),
        decreases fixture.transactions@.len() - i,
    {
        let tx = &fixture.transactions[i];
        if !field_splits_cleanly(&tx.from) {
            return false;
        }
        match &tx.to {
            Some(t) => {
                if !field_splits_cleanly(t) {
                    return false;
                }
            },
            None => {},
        }
        i = i + 1;
    }
    let mut i: usize = 0;
    while i < fixture.expected.balances.len()
        invariant
            i <= fixture.expected.balances@.len(),
            forall|j: int|
                0 <= j < fixture.initial_accounts@.len() ==> address_chars_split_cleanly(
                    #[trigger] fixture.initial_accounts@[j].address@,
                ),
            forall|j: int|
                0 <= j < fixture.transactions@.len() ==> address_chars_split_cleanly(
                    (#[trigger] fixture.transactions@[j]).from@,
                ) && (fixture.transactions@[j].to matches Some(t) ==> address_chars_split_cleanly(
                    t@,
                )),
            forall|j: int|
                0 <= j < i ==> address_chars_split_cleanly(
                    #[trigger] fixture.expected.balances@[j].address@,
                ),
        decreases fixture.expected.balances@.len() - i,
    {
        if !field_splits_cleanly(&fixture.expected.balances[i].address) {
            return false;
        }
        i = i + 1;
    }
    true
}


proof fn lemma_hex_digit_of_digit_char(d: nat)
    requires
        d < 16,
    ensures
        (digit_char(d) as u32) < 128,
        hex_digit_byte(digit_char(d) as u8) == Some(d as u8),
        digit_char(d) as u8 != 0x2b,
{
}

proof fn lemma_address_text_ascii(a: Address)
    ensures
        vstd::utf8::is_ascii_chars(address_text(a)),
        address_text(a).len() == 42,
        address_text(a)[0] == '0',
        address_text(a)[1] == 'x',
        forall|i: int| 0 <= i < 40 ==> #[trigger] address_text(a)[i + 2] == address_hex_chars(a)[i],
{
    reveal_strlit("0x");
    let t = address_text(a);
    assert forall|i: int| 0 <= i < t.len() implies '\0' <= #[trigger] t[i] <= '\u{7f}' by {
        if i >= 2 {
            let k = i - 2;
            assert(t[i] == address_hex_chars(a)[k]);
            if k % 2 == 0 {
                lemma_hex_digit_of_digit_char((a[k / 2] / 16) as nat);
            } else {
                lemma_hex_digit_of_digit_char((a[k / 2] % 16) as nat);
            }
        }
    }
}

proof fn lemma_hex_chars_read_back(a: Address, hex: Seq<u8>)
    requires
        hex.len() == 40,
        forall|i: int| 0 <= i < 40 ==> #[trigger] hex[i] == address_hex_chars(a)[i] as u8,
    ensures
        address_pairs_valid(hex),
        address_pair_bytes(hex) == a@,
        pairs_split_on_char_boundaries(hex, 0),
{
    assert forall|k: int| 0 <= k < 20 implies #[trigger] hex_pair_value(hex[2 * k], hex[2 * k + 1])
        == Some(a[k]) by {
        let hi = (a[k] / 16) as nat;
        let lo = (a[k] % 16) as nat;
        assert(hex[2 * k] == address_hex_chars(a)[2 * k] as u8);
        assert(hex[2 * k + 1] == address_hex_chars(a)[2 * k + 1] as u8);
        assert((2 * k) / 2 == k && (2 * k) % 2 == 0);
        assert((2 * k + 1) / 2 == k && (2 * k + 1) % 2 == 1);
        lemma_hex_digit_of_digit_char(hi);
        lemma_hex_digit_of_digit_char(lo);
        assert(hi * 16 + lo == a[k]);
    }
    assert(address_pair_bytes(hex) =~= a@);
    assert forall|i: int| 0 <= i < 40 implies (#[trigger] hex[i]) < 0x80 by {
        let k = i / 2;
        if i % 2 == 0 {
            lemma_hex_digit_of_digit_char((a[k] / 16) as nat);
        } else {
            lemma_hex_digit_of_digit_char((a[k] % 16) as nat);
        }
    }
    lemma_pairs_split_when_no_continuation(hex, 0);
}

/// What `format_address` writes, an address field reads back, with or
/// without its `0x` prefix: both texts denote the address.
pub proof fn lemma_address_text_reads_back(a: Address)
    ensures
        field_address(address_text(a)) == Ok::<Address, Seq<char>>(a),
        address_chars_split_cleanly(address_text(a)),
        field_address(address_hex_chars(a)) == Ok::<Address, Seq<char>>(a),
        address_chars_split_cleanly(address_hex_chars(a)),
{
    let t = address_text(a);
    lemma_address_text_ascii(a);
    vstd::utf8::is_ascii_chars_encode_utf8(t);
    let b = vstd::utf8::encode_utf8(t);
    assert(b[0] == t[0] as u8);
    assert(b[1] == t[1] as u8);
    let hex = address_hex(b);
    assert(hex =~= b.skip(2));
    assert forall|i: int| 0 <= i < 40 implies #[trigger] hex[i] == address_hex_chars(a)[i] as u8 by {
        assert(b[i + 2] == t[i + 2] as u8);
    }
    lemma_hex_chars_read_back(a, hex);
    lemma_field_address_ok(t, a);

    let u = address_hex_chars(a);
    assert(vstd::utf8::is_ascii_chars(u)) by {
        assert forall|i: int| 0 <= i < u.len() implies '\0' <= #[trigger] u[i] <= '\u{7f}' by {
            assert(u[i] == t[i + 2]);
        }
    }
    vstd::utf8::is_ascii_chars_encode_utf8(u);
    let c = vstd::utf8::encode_utf8(u);
    assert(c[1] == u[1] as u8);
    lemma_hex_digit_of_digit_char((a[0] % 16) as nat);
    assert(u[1] == digit_char((a[0] % 16) as nat));
    assert(c[1] != 0x78);
    assert(address_hex(c) == c);
    assert forall|i: int| 0 <= i < 40 implies #[trigger] c[i] == address_hex_chars(a)[i] as u8 by {
        assert(c[i] == u[i] as u8);
    }
    lemma_hex_chars_read_back(a, c);
    lemma_field_address_ok(u, a);
}

proof fn lemma_pairs_split_when_no_continuation(hex: Seq<u8>, k: int)
    requires
        0 <= k <= 20,
        hex.len() == 40,
        forall|i: int| 0 <= i < 40 ==> (#[trigger] hex[i]) < 0x80,
    ensures
        pairs_split_on_char_boundaries(hex, k),
    decreases 20 - k,
{
    if k < 20 {
        if 2 * k + 2 < hex.len() {
            assert(hex[2 * k + 2] < 0x80);
        }
        lemma_pairs_split_when_no_continuation(hex, k + 1);
    }
}


/// Whether `c` is a decimal digit or a lowercase hexadecimal letter.
pub open spec fn plain_digit(c: char) -> bool {
    (0x30 <= (c as u32) <= 0x39) || (0x61 <= (c as u32) <= 0x66)
}

/// The digits `digits_of` writes in base 10 or 16 are plain digits and read
/// back, in that base, as the number.
pub proof fn lemma_digits_value(n: nat, base: nat)
    requires
        base == 10 || base == 16,
    ensures
        digits_of(n, base).len() > 0,
        digits_value(digits_of(n, base), base) == Some(n),
        forall|i: int| 0 <= i < digits_of(n, base).len() ==> plain_digit(#[trigger] digits_of(n, base)[i]),
    decreases n,
{
    if n < base {
        assert(digits_of(n, base) == seq![digit_char(n)]);
        assert(seq![digit_char(n)].drop_last() =~= Seq::<char>::empty());
        assert(digit_value(digit_char(n)) == Some(n));
        assert(seq![digit_char(n)].last() == digit_char(n));
        assert(digits_value(Seq::<char>::empty(), base) == Some(0nat));
        assert(digits_value(seq![digit_char(n)], base) == Some(0 * base + n));
    } else {
        assert(n / base < n) by (nonlinear_arith)
            requires
                base >= 2,
                n >= base,
        ;
        lemma_digits_value(n / base, base);
        let s = digits_of(n / base, base);
        let d = n % base;
        assert(d < base) by (nonlinear_arith)
            requires
                base >= 2,
                d == n % base,
        ;
        assert(digits_of(n, base) == s.push(digit_char(d)));
        assert(s.push(digit_char(d)).drop_last() =~= s);
        assert(n == (n / base) * base + d) by (nonlinear_arith)
            requires
                base >= 2,
                d == n % base,
        ;
        assert(digit_value(digit_char(d)) == Some(d));
        assert(digits_value(s.push(digit_char(d)), base) == Some((n / base) * base + d));
        assert forall|i: int| 0 <= i < s.push(digit_char(d)).len() implies plain_digit(
            #[trigger] s.push(digit_char(d))[i],
        ) by {
            if i < s.len() {
                assert(s.push(digit_char(d))[i] == s[i]);
            }
        }
    }
}

proof fn lemma_trim_start_padding(p: Seq<char>, s: Seq<char>)
    requires
        forall|i: int| 0 <= i < p.len() ==> is_whitespace_char(#[trigger] p[i]),
        s.len() > 0,
        !is_whitespace_char(s[0]),
    ensures
        trim_start(p + s) == s,
    decreases p.len(),
{
    if p.len() == 0 {
        assert(p + s =~= s);
    } else {
        assert((p + s).drop_first() =~= p.drop_first() + s);
        assert forall|i: int| 0 <= i < p.drop_first().len() implies is_whitespace_char(
            #[trigger] p.drop_first()[i],
        ) by {
            assert(p.drop_first()[i] == p[i + 1]);
        }
        lemma_trim_start_padding(p.drop_first(), s);
    }
}

proof fn lemma_trim_end_padding(s: Seq<char>, q: Seq<char>)
    requires
        forall|i: int| 0 <= i < q.len() ==> is_whitespace_char(#[trigger] q[i]),
        s.len() > 0,
        !is_whitespace_char(s.last()),
    ensures
        trim_end(s + q) == s,
    decreases q.len(),
{
    if q.len() == 0 {
        assert(s + q =~= s);
    } else {
        assert((s + q).drop_last() =~= s + q.drop_last());
        assert((s + q).last() == q.last());
        assert forall|i: int| 0 <= i < q.drop_last().len() implies is_whitespace_char(
            #[trigger] q.drop_last()[i],
        ) by {
            assert(q.drop_last()[i] == q[i]);
        }
        lemma_trim_end_padding(s, q.drop_last());
    }
}

proof fn lemma_trimmed_padding(p: Seq<char>, s: Seq<char>, q: Seq<char>)
    requires
        forall|i: int| 0 <= i < p.len() ==> is_whitespace_char(#[trigger] p[i]),
        forall|i: int| 0 <= i < q.len() ==> is_whitespace_char(#[trigger] q[i]),
        s.len() > 0,
        !is_whitespace_char(s[0]),
        !is_whitespace_char(s.last()),
    ensures
        trimmed(p + s + q) == s,
{
    assert(p + s + q =~= p + (s + q));
    assert((s + q)[0] == s[0]);
    lemma_trim_start_padding(p, s + q);
    lemma_trim_end_padding(s, q);
}

/// What `decimal_string` writes, a numeric field reads back: the decimal
/// digits of `n` denote `n`.
pub proof fn lemma_decimal_text_reads_back(n: u128)
    ensures
        field_number(digits_of(n as nat, 10)) == Ok::<u128, Seq<char>>(n),
{
    lemma_number_text_reads_back(n, Seq::empty(), Seq::empty());
    assert(Seq::<char>::empty() + digits_of(n as nat, 10) + Seq::<char>::empty() =~= digits_of(
        n as nat,
        10,
    ));
}

/// A numeric field reads back its value whatever whitespace surrounds it,
/// written in decimal, or in lowercase hexadecimal after `0x` or `0X`.
pub proof fn lemma_number_text_reads_back(n: u128, p: Seq<char>, q: Seq<char>)
    requires
        forall|i: int| 0 <= i < p.len() ==> is_whitespace_char(#[trigger] p[i]),
        forall|i: int| 0 <= i < q.len() ==> is_whitespace_char(#[trigger] q[i]),
    ensures
        fixture_number(p + digits_of(n as nat, 10) + q) == Some(n),
        fixture_number(p + ("0x"@ + digits_of(n as nat, 16)) + q) == Some(n),
        fixture_number(p + ("0X"@ + digits_of(n as nat, 16)) + q) == Some(n),
{
    reveal_strlit("0x");
    reveal_strlit("0X");
    let d = digits_of(n as nat, 10);
    lemma_digits_value(n as nat, 10);
    assert(plain_digit(d[0]) && plain_digit(d.last()));
    lemma_trimmed_padding(p, d, q);
    if d.len() >= 2 {
        assert(plain_digit(d[1]));
    }
    let h = digits_of(n as nat, 16);
    lemma_digits_value(n as nat, 16);
    assert(plain_digit(h[0]) && plain_digit(h.last()));
    let x = "0x"@ + h;
    let big_x = "0X"@ + h;
    assert(x.last() == h.last());
    assert(big_x.last() == h.last());
    lemma_trimmed_padding(p, x, q);
    lemma_trimmed_padding(p, big_x, q);
    assert(x.skip(2) =~= h);
    assert(big_x.skip(2) =~= h);
    assert(h[0] != '+');
}


/// Whether `c` is the hexadecimal digit character of `d`, a letter in
/// either case (`a`..`f` or `A`..`F`).
pub open spec fn hex_digit_in_any_case(c: char, d: nat) -> bool {
    d < 16 && (c == digit_char(d) || (d >= 10 && c == ((d + 55) as char)))
}

/// Whether `u` is the text `format_address` writes for `a`, with any of its
/// hexadecimal letters upper-cased.
pub open spec fn address_text_in_any_case(a: Address, u: Seq<char>) -> bool {
    &&& u.len() == 42
    &&& u[0] == '0'
    &&& u[1] == 'x'
    &&& forall|k: int|
        0 <= k < 20 ==> hex_digit_in_any_case(#[trigger] u[2 * k + 2], (a[k] / 16) as nat)
            && hex_digit_in_any_case(u[2 * k + 3], (a[k] % 16) as nat)
}

proof fn lemma_hex_digit_any_case_value(c: char, d: nat)
    requires
        hex_digit_in_any_case(c, d),
    ensures
        (c as u32) < 128,
        hex_digit_byte(c as u8) == Some(d as u8),
        c as u8 != 0x2b,
{
    lemma_hex_digit_of_digit_char(d);
}

/// Address fields are read case-insensitively: the text of an address with
/// any of its hexadecimal letters upper-cased still denotes the address.
pub proof fn lemma_address_text_reads_back_in_any_case(a: Address, u: Seq<char>)
    requires
        address_text_in_any_case(a, u),
    ensures
        field_address(u) == Ok::<Address, Seq<char>>(a),
        address_chars_split_cleanly(u),
        address_hex(vstd::utf8::encode_utf8(u)).len() == 40,
        address_pairs_valid(address_hex(vstd::utf8::encode_utf8(u))),
        address_pair_bytes(address_hex(vstd::utf8::encode_utf8(u))) == a@,
{
    assert forall|i: int| 0 <= i < u.len() implies '\0' <= #[trigger] u[i] <= '\u{7f}' by {
        if i >= 2 {
            let k = (i - 2) / 2;
            if i % 2 == 0 {
                assert(i == 2 * k + 2);
                lemma_hex_digit_any_case_value(u[2 * k + 2], (a[k] / 16) as nat);
            } else {
                assert(i == 2 * k + 3);
                assert(hex_digit_in_any_case(u[2 * k + 2], (a[k] / 16) as nat));
                lemma_hex_digit_any_case_value(u[2 * k + 3], (a[k] % 16) as nat);
            }
        }
    }
    assert(vstd::utf8::is_ascii_chars(u));
    vstd::utf8::is_ascii_chars_encode_utf8(u);
    let b = vstd::utf8::encode_utf8(u);
    assert(b[0] == u[0] as u8);
    assert(b[1] == u[1] as u8);
    let hex = address_hex(b);
    assert(hex =~= b.skip(2));
    assert forall|k: int| 0 <= k < 20 implies #[trigger] hex_pair_value(hex[2 * k], hex[2 * k + 1])
        == Some(a[k]) by {
        let hi = (a[k] / 16) as nat;
        let lo = (a[k] % 16) as nat;
        assert(hex[2 * k] == b[2 * k + 2]);
        assert(hex[2 * k + 1] == b[2 * k + 3]);
        assert(b[2 * k + 2] == u[2 * k + 2] as u8);
        assert(b[2 * k + 3] == u[2 * k + 3] as u8);
        assert(hex_digit_in_any_case(u[2 * k + 2], hi));
        lemma_hex_digit_any_case_value(u[2 * k + 2], hi);
        lemma_hex_digit_any_case_value(u[2 * k + 3], lo);
        assert(hi * 16 + lo == a[k]);
    }
    assert(address_pair_bytes(hex) =~= a@);
    lemma_field_address_ok(u, a);
    assert forall|i: int| 0 <= i < 40 implies (#[trigger] hex[i]) < 0x80 by {
        assert(hex[i] == b[i + 2]);
        assert(b[i + 2] == u[i + 2] as u8);
        assert('\0' <= u[i + 2] <= '\u{7f}');
    }
    lemma_pairs_split_when_no_continuation(hex, 0);
}


proof fn lemma_expected_table_entries(ebs: Seq<FixtureBalance>, name: Seq<char>)
    requires
        expected_table(ebs, name) is Ok,
    ensures
        expected_table(ebs, name)->Ok_0.dom().finite(),
        forall|i: int|
            0 <= i < ebs.len() ==> {
                &&& field_address((#[trigger] ebs[i]).address@) is Ok
                &&& field_number(ebs[i].balance@) is Ok
                &&& expected_table(ebs, name)->Ok_0.contains_key(
                    address_key_of(field_address(ebs[i].address@)->Ok_0),
                )
                &&& expected_table(ebs, name)->Ok_0[address_key_of(
                    field_address(ebs[i].address@)->Ok_0,
                )].1 == field_number(ebs[i].balance@)->Ok_0
            },
    decreases ebs.len(),
{
    if ebs.len() > 0 {
        let p = ebs.drop_last();
        lemma_expected_table_entries(p, name);
        let m0 = expected_table(p, name)->Ok_0;
        let m = expected_table(ebs, name)->Ok_0;
        let kl = address_key_of(field_address(ebs.last().address@)->Ok_0);
        assert forall|i: int| 0 <= i < ebs.len() implies {
            &&& field_address((#[trigger] ebs[i]).address@) is Ok
            &&& field_number(ebs[i].balance@) is Ok
            &&& m.contains_key(address_key_of(field_address(ebs[i].address@)->Ok_0))
            &&& m[address_key_of(field_address(ebs[i].address@)->Ok_0)].1 == field_number(
                ebs[i].balance@,
            )->Ok_0
        } by {
            if i < ebs.len() - 1 {
                assert(ebs[i] == p[i]);
                let k = address_key_of(field_address(p[i].address@)->Ok_0);
                assert(m0.contains_key(k));
                assert(k != kl);
            } else {
                assert(ebs[i] == ebs.last());
            }
        }
    } else {
        assert(expected_table(ebs, name)->Ok_0.dom() =~= Set::<AddressKey>::empty());
    }
}

proof fn lemma_no_balance_lines(
    ks: Seq<AddressKey>,
    table: Map<AddressKey, (Address, u128)>,
    post: AccountsMap,
)
    requires
        balance_lines(ks, table, post).len() == 0,
    ensures
        forall|i: int| 0 <= i < ks.len() ==> balance_in(post, #[trigger] ks[i]) == table[ks[i]].1,
    decreases ks.len(),
{
    if ks.len() > 0 {
        lemma_no_balance_lines(ks.drop_last(), table, post);
        assert forall|i: int| 0 <= i < ks.len() implies balance_in(post, #[trigger] ks[i])
            == table[ks[i]].1 by {
            if i < ks.len() - 1 {
                assert(ks[i] == ks.drop_last()[i]);
            }
        }
    }
}

/// The state a fixture's transfers leave: its initial balances with its
/// transfers applied in order, up to the first refused one.
pub open spec fn fixture_post_state(f: Fixture) -> AccountsMap {
    apply_transfers(
        fixture_setup(f.initial_accounts@)->Ok_0,
        fixture_transfers(f.transactions@)->Ok_0,
    ).0
}

/// A fixture that passes ran with the outcome it expects, and every balance
/// it expects is held in the post-state: an account holds exactly its
/// expected balance, and an expected address without an account was
/// expected to hold zero.
pub proof fn lemma_passed_fixture_holds_expected_balances(f: Fixture, i: int)
    requires
        fixture_outcome(f) is Ok,
        fixture_outcome(f)->Ok_0.passed,
        0 <= i < f.expected.balances@.len(),
    ensures
        fixture_outcome(f)->Ok_0.actual_success == f.expected.success,
        field_address(f.expected.balances@[i].address@) is Ok,
        field_number(f.expected.balances@[i].balance@) is Ok,
        ({
            let k = address_key_of(field_address(f.expected.balances@[i].address@)->Ok_0);
            let v = field_number(f.expected.balances@[i].balance@)->Ok_0;
            let post = fixture_post_state(f);
            &&& post.contains_key(k) ==> post[k].balance == v
            &&& !post.contains_key(k) ==> v == 0
        }),
{
    let ebs = f.expected.balances@;
    let table = expected_table(ebs, f.name@)->Ok_0;
    let post = fixture_post_state(f);
    let run = fixture_outcome(f)->Ok_0;
    lemma_expected_table_entries(ebs, f.name@);
    lemma_sorted_address_keys(table.dom());
    let ks = sorted_address_keys(table.dom());
    let bl = balance_lines(ks, table, post);
    let sl = success_lines(f.expected.success, run.actual_success);
    let ul = unexpected_lines(sorted_address_keys(post.dom()), table, post);
    assert(run.mismatches == sl + bl + ul);
    assert((sl + bl + ul).len() == sl.len() + bl.len() + ul.len());
    assert(sl.len() == 0);
    assert(bl.len() == 0);
    lemma_no_balance_lines(ks, table, post);
    let k = address_key_of(field_address(ebs[i].address@)->Ok_0);
    assert(table.contains_key(k));
    assert(ks.to_set().contains(k));
    let j = choose|j: int| 0 <= j < ks.len() && ks[j] == k;
    assert(balance_in(post, ks[j]) == table[ks[j]].1);
}

} // verus!
