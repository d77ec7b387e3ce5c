//! Small text helpers: string comparison and digit rendering.

use vstd::prelude::*;

verus! {

/// Whether two string slices hold the same characters.
pub fn str_eq(a: &str, b: &str) -> (r: bool)
    ensures
        r == (a@ == b@),
{
    let x = a.to_owned();
    let y = b.to_owned();
    x == y
}

/// The character of digit `d` (lowercase for 10..15).
pub open spec fn digit_char(d: nat) -> char {
    if d < 10 {
        (d + 48) as char
    } else {
        (d + 87) as char
    }
}

/// The digits of `n` in base `base`, most significant first, without leading
/// zeros (a single `0` for zero).
pub open spec fn digits_of(n: nat, base: nat) -> Seq<char>
    decreases n,
{
    if base < 2 || n < base {
        seq![digit_char(n)]
    } else {
        proof {
            assert(n / base < n) by (nonlinear_arith)
                requires
                    base >= 2,
                    n >= base,
            ;
        }
        digits_of(n / base, base).push(digit_char(n % base))
    }
}

fn digit_str(d: u8) -> (r: &'static str)
    requires
        d < 16,
    ensures
        r@ == seq![digit_char(d as nat)],
{
    proof {
        reveal_strlit("0");
        reveal_strlit("1");
        reveal_strlit("2");
        reveal_strlit("3");
        reveal_strlit("4");
        reveal_strlit("5");
        reveal_strlit("6");
        reveal_strlit("7");
        reveal_strlit("8");
        reveal_strlit("9");
        reveal_strlit("a");
        reveal_strlit("b");
        reveal_strlit("c");
        reveal_strlit("d");
        reveal_strlit("e");
        reveal_strlit("f");
    }
    let r = match d {
        0 => "0",
        1 => "1",
        2 => "2",
        3 => "3",
        4 => "4",
        5 => "5",
        6 => "6",
        7 => "7",
        8 => "8",
        9 => "9",
        10 => "a",
        11 => "b",
        12 => "c",
        13 => "d",
        14 => "e",
        _ => "f",
    };
    assert(r@ =~= seq![digit_char(d as nat)]);
    r
}

/// Appends the digits of `n` in base `base` to `out`.
pub fn push_digits(out: &mut String, n: u128, base: u128)
    requires
        2 <= base <= 16,
    ensures
        final(out)@ == old(out)@ + digits_of(n as nat, base as nat),
{
    let mut ds: Vec<u8> = Vec::new();
    let mut m = n;
    let ghost mut suffix: Seq<char> = Seq::empty();
    while m >= base
        invariant
            2 <= base <= 16,
            digits_of(n as nat, base as nat) == digits_of(m as nat, base as nat) + suffix,
            suffix.len() == ds@.len(),
            forall|i: int|
                0 <= i < ds@.len() ==> ds@[i] < 16 && suffix[suffix.len() - 1 - i] == digit_char(
                    ds@[i] as nat,
                ),
        decreases m,
    {
        let d = (m % base) as u8;
        proof {
            let q = (m / base) as nat;
            assert(digits_of(m as nat, base as nat) == digits_of(q, base as nat).push(
                digit_char((m % base) as nat),
            ));
            assert(digits_of(q, base as nat).push(digit_char((m % base) as nat)) + suffix
                =~= digits_of(q, base as nat) + seq![digit_char((m % base) as nat)].add(suffix));
            suffix = seq![digit_char((m % base) as nat)].add(suffix);
        }
        ds.push(d);
        m = m / base;
    }
    let ghost first = seq![digit_char(m as nat)];
    assert(digits_of(m as nat, base as nat) == first);
    let ghost start = out@;
    out.append(digit_str(m as u8));
    let mut i = ds.len();
    while i > 0
        invariant
            i <= ds@.len(),
            suffix.len() == ds@.len(),
            forall|j: int|
                0 <= j < ds@.len() ==> ds@[j] < 16 && suffix[suffix.len() - 1 - j] == digit_char(
                    ds@[j] as nat,
                ),
            out@ == start + first + suffix.take(ds@.len() - i),
        decreases i,
    {
        i = i - 1;
        let d = ds[i];
        out.append(digit_str(d));
        assert(suffix.take(ds@.len() - i) =~= suffix.take(ds@.len() - 1 - i).push(
            digit_char(d as nat),
        ));
    }
    assert(suffix.take(ds@.len() as int) =~= suffix);
    assert(start + first + suffix =~= start + digits_of(n as nat, base as nat));
}

/// The decimal rendering of `n`.
pub fn decimal_string(n: u128) -> (r: String)
    ensures
        r@ == digits_of(n as nat, 10),
{
    let mut s = String::new();
    push_digits(&mut s, n, 10);
    assert(s@ =~= digits_of(n as nat, 10));
    s
}


/// The decimal renderings of `bytes`, separated by `", "`.
pub open spec fn byte_list_text(bytes: Seq<u8>) -> Seq<char>
    decreases bytes.len(),
{
    if bytes.len() == 0 {
        Seq::empty()
    } else if bytes.len() == 1 {
        digits_of(bytes[0] as nat, 10)
    } else {
        byte_list_text(bytes.drop_last()) + ", "@ + digits_of(bytes.last() as nat, 10)
    }
}

/// The debug rendering of a byte array: its bytes in decimal, separated by
/// `", "`, in square brackets.
pub open spec fn byte_array_text(bytes: Seq<u8>) -> Seq<char> {
    "["@ + byte_list_text(bytes) + "]"@
}

/// Appends the debug rendering of `bytes` to `out`.
pub fn push_byte_array(out: &mut String, bytes: &[u8])
    ensures
        final(out)@ == old(out)@ + byte_array_text(bytes@),
{
    let ghost start = out@;
    out.append("[");
    let mut i: usize = 0;
    assert(bytes@.take(0) =~= Seq::<u8>::empty());
    while i < bytes.len()
        invariant
            i <= bytes@.len(),
            out@ == start + "["@ + byte_list_text(bytes@.take(i as int)),
        decreases bytes@.len() - i,
    {
        let ghost prefix = bytes@.take(i + 1);
        assert(prefix.drop_last() =~= bytes@.take(i as int));
        assert(prefix.last() == bytes@[i as int]);
        if i > 0 {
            out.append(", ");
        }
        push_digits(out, bytes[i] as u128, 10);
        assert(out@ =~= start + "["@ + byte_list_text(prefix));
        i = i + 1;
    }
    out.append("]");
    assert(bytes@.take(bytes@.len() as int) =~= bytes@);
    assert(out@ =~= start + byte_array_text(bytes@));
}

} // verus!
