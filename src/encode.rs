//! Hex encodings of results: quantities without leading zeros (zero itself is
//! `0x0`), fixed-width words and byte strings.

use crate::hex::pow16;
use crate::types::{Address, U256};
use vstd::arithmetic::div_mod::lemma_div_denominator;
use vstd::prelude::*;
use vstd::string::StringExecFns;

verus! {

pub open spec fn hex_alphabet() -> Seq<char> {
    seq!['0', '1', '2', '3', '4', '5', '6', '7', '8', '9', 'a', 'b', 'c', 'd', 'e', 'f']
}

/// The lower-case hex digit of `d`.
pub open spec fn hex_char(d: nat) -> char {
    hex_alphabet()[d as int]
}

/// The last `n` hex digits of `v`, most significant first.
pub open spec fn hex_digits(v: nat, n: nat) -> Seq<char>
    decreases n,
{
    if n == 0 {
        Seq::empty()
    } else {
        hex_digits(v / 16, (n - 1) as nat).push(hex_char(v % 16))
    }
}

/// The hex digits of a 256-bit word, all sixty-four of them.
pub open spec fn word_digits(w: U256) -> Seq<char> {
    hex_digits(w.high as nat, 32) + hex_digits(w.low as nat, 32)
}

/// Leading zero digits dropped, keeping at least one digit.
pub open spec fn drop_leading_zeros(s: Seq<char>) -> Seq<char>
    decreases s.len(),
{
    if s.len() > 1 && s[0] == '0' {
        drop_leading_zeros(s.drop_first())
    } else {
        s
    }
}

/// A word as a fixed-width hex text: `0x` and sixty-four digits.
pub open spec fn word_text(w: U256) -> Seq<char> {
    "0x"@ + word_digits(w)
}

/// A quantity as a minimal hex text.
pub open spec fn quantity_text(w: U256) -> Seq<char> {
    "0x"@ + drop_leading_zeros(word_digits(w))
}

/// The hex digits of bytes, two per byte.
pub open spec fn bytes_digits(b: Seq<u8>) -> Seq<char>
    decreases b.len(),
{
    if b.len() == 0 {
        Seq::empty()
    } else {
        bytes_digits(b.drop_last()) + hex_digits(b.last() as nat, 2)
    }
}

pub open spec fn bytes_text(b: Seq<u8>) -> Seq<char> {
    "0x"@ + bytes_digits(b)
}

/// Digit `i` of the last `n` hex digits of `v`.
pub open spec fn digit_at(v: nat, n: nat, i: int) -> nat {
    (v / pow16((n - 1 - i) as nat)) % 16
}

proof fn lemma_pow16_pos(n: nat)
    ensures
        pow16(n) > 0,
    decreases n,
{
    if n > 0 {
        lemma_pow16_pos((n - 1) as nat);
    }
}

proof fn lemma_hex_digits_index(v: nat, n: nat, i: int)
    requires
        0 <= i < n,
    ensures
        hex_digits(v, n).len() == n,
        hex_digits(v, n)[i] == hex_char(digit_at(v, n, i)),
    decreases n,
{
    lemma_hex_digits_len(v, n);
    if i < n - 1 {
        lemma_hex_digits_index(v / 16, (n - 1) as nat, i);
        lemma_pow16_pos((n - 2 - i) as nat);
        lemma_div_denominator(v as int, 16, pow16((n - 2 - i) as nat) as int);
        assert(pow16((n - 1 - i) as nat) == 16 * pow16((n - 2 - i) as nat));
        assert(hex_digits(v, n) == hex_digits(v / 16, (n - 1) as nat).push(hex_char(v % 16)));
        assert(hex_digits(v, n)[i] == hex_digits(v / 16, (n - 1) as nat)[i]);
        assert(v / pow16((n - 1 - i) as nat) == (v / 16) / pow16((n - 2 - i) as nat));
        assert(digit_at(v, n, i) == digit_at(v / 16, (n - 1) as nat, i));
    } else {
        assert(pow16(0) == 1);
        assert(hex_digits(v, n) == hex_digits(v / 16, (n - 1) as nat).push(hex_char(v % 16)));
        assert(v / pow16(0) == v);
    }
}

proof fn lemma_hex_digits_len(v: nat, n: nat)
    ensures
        hex_digits(v, n).len() == n,
    decreases n,
{
    if n > 0 {
        lemma_hex_digits_len(v / 16, (n - 1) as nat);
    }
}

/// The text of one hex digit.
fn digit_str(d: u8) -> (r: &'static str)
    requires
        d < 16,
    ensures
        r@ == seq![hex_char(d as nat)],
{
    proof {
        reveal_strlit("0");
        reveal_strlit("1");
        reveal_strlit("2");
        reveal_strlit("3");
        reveal_strlit("4");
        reveal_strlit("5");
        reveal_strlit("6");
        reveal_strlit("7");
        reveal_strlit("8");
        reveal_strlit("9");
        reveal_strlit("a");
        reveal_strlit("b");
        reveal_strlit("c");
        reveal_strlit("d");
        reveal_strlit("e");
        reveal_strlit("f");
    }
    let r = match d {
        0 => "0",
        1 => "1",
        2 => "2",
        3 => "3",
        4 => "4",
        5 => "5",
        6 => "6",
        7 => "7",
        8 => "8",
        9 => "9",
        10 => "a",
        11 => "b",
        12 => "c",
        13 => "d",
        14 => "e",
        _ => "f",
    };
    assert(r@ =~= seq![hex_char(d as nat)]);
    r
}

/// The last `n` hex digits of `x` as values, most significant first.
fn digit_values(x: u128, n: usize) -> (r: Vec<u8>)
    requires
        1 <= n <= 32,
    ensures
        r@.len() == n,
        forall|i: int| 0 <= i < n ==> #[trigger] r@[i] as nat == digit_at(x as nat, n as nat, i),
{
    let mut p: u128 = 1;
    let mut k: usize = 1;
    proof {
        reveal_with_fuel(pow16, 33);
    }
    while k < n
        invariant
            1 <= k <= n <= 32,
            p == pow16((k - 1) as nat),
            pow16(31) == 0x1000_0000_0000_0000_0000_0000_0000_0000,
        decreases n - k,
    {
        proof {
            crate::hex::lemma_pow16_mono(k as nat, 31);
        }
        p = p * 16;
        k = k + 1;
    }
    let mut r: Vec<u8> = Vec::new();
    let mut i: usize = 0;
    while i < n
        invariant
            i <= n <= 32,
            r@.len() == i,
            i < n ==> p == pow16((n - 1 - i) as nat),
            forall|j: int| 0 <= j < i ==> #[trigger] r@[j] as nat == digit_at(x as nat, n as nat, j),
        decreases n - i,
    {
        proof {
            lemma_pow16_pos((n - 1 - i) as nat);
        }
        let d = ((x / p) % 16) as u8;
        r.push(d);
        if i + 1 < n {
            assert(pow16((n - 1 - i) as nat) == 16 * pow16((n - 2 - i) as nat));
            p = p / 16;
        }
        i = i + 1;
    }
    r
}

/// Appends the digits of `values[from..]` to `s`.
fn push_digits(s: &mut String, values: &Vec<u8>, from: usize)
    requires
        from <= values@.len(),
        forall|i: int| 0 <= i < values@.len() ==> #[trigger] values@[i] < 16,
    ensures
        final(s)@ == old(s)@ + values@.skip(from as int).map_values(|d: u8| hex_char(d as nat)),
{
    let mut i = from;
    while i < values.len()
        invariant
            from <= i <= values@.len(),
            forall|j: int| 0 <= j < values@.len() ==> #[trigger] values@[j] < 16,
            s@ == old(s)@ + values@.subrange(from as int, i as int).map_values(
                |d: u8| hex_char(d as nat),
            ),
        decreases values@.len() - i,
    {
        let ghost before = s@;
        s.append(digit_str(values[i]));
        assert(values@.subrange(from as int, i + 1) =~= values@.subrange(from as int, i as int).push(
            values@[i as int],
        ));
        i = i + 1;
    }
    assert(values@.subrange(from as int, i as int) =~= values@.skip(from as int));
}

/// The sixty-four digit values of a word.
fn word_values(w: U256) -> (r: Vec<u8>)
    ensures
        r@.len() == 64,
        forall|i: int| 0 <= i < 64 ==> #[trigger] r@[i] < 16,
        r@.map_values(|d: u8| hex_char(d as nat)) == word_digits(w),
{
    let mut r = digit_values(w.high, 32);
    let mut lo = digit_values(w.low, 32);
    let ghost hi_v = r@;
    let ghost lo_v = lo@;
    r.append(&mut lo);
    proof {
        assert forall|i: int| 0 <= i < 64 implies #[trigger] r@[i] < 16 by {
            if i < 32 {
                assert(r@[i] == hi_v[i]);
            } else {
                assert(r@[i] == lo_v[i - 32]);
            }
        }
        assert forall|i: int| 0 <= i < 32 implies hex_digits(w.high as nat, 32)[i] == hex_char(
            hi_v[i] as nat,
        ) by {
            lemma_hex_digits_index(w.high as nat, 32, i);
        }
        assert forall|i: int| 0 <= i < 32 implies hex_digits(w.low as nat, 32)[i] == hex_char(
            lo_v[i] as nat,
        ) by {
            lemma_hex_digits_index(w.low as nat, 32, i);
        }
        lemma_hex_digits_len(w.high as nat, 32);
        lemma_hex_digits_len(w.low as nat, 32);
        assert(r@.map_values(|d: u8| hex_char(d as nat)) =~= word_digits(w));
    }
    r
}

/// Encodes a word as `0x` and sixty-four hex digits.
pub fn encode_word(w: U256) -> (r: String)
    ensures
        r@ == word_text(w),
{
    let values = word_values(w);
    let mut s = String::from_str("0x");
    push_digits(&mut s, &values, 0);
    assert(values@.skip(0) =~= values@);
    s
}

proof fn lemma_drop_leading_zeros(s: Seq<char>, j: int)
    requires
        0 <= j < s.len(),
        forall|i: int| 0 <= i < j ==> s[i] == '0',
        j == s.len() - 1 || s[j] != '0',
    ensures
        drop_leading_zeros(s) == s.skip(j),
    decreases j,
{
    if j > 0 {
        assert(s.drop_first().skip(j - 1) =~= s.skip(j));
        lemma_drop_leading_zeros(s.drop_first(), j - 1);
    } else {
        assert(s.skip(0) =~= s);
    }
}

/// Encodes a quantity as `0x` and its hex digits without leading zeros.
pub fn encode_quantity(w: U256) -> (r: String)
    ensures
        r@ == quantity_text(w),
{
    let values = word_values(w);
    let mut j: usize = 0;
    while j < 63 && values[j] == 0
        invariant
            j <= 63,
            values@.len() == 64,
            forall|i: int| 0 <= i < j ==> values@[i] == 0,
        decreases 63 - j,
    {
        j = j + 1;
    }
    let mut s = String::from_str("0x");
    push_digits(&mut s, &values, j);
    proof {
        let digits = values@.map_values(|d: u8| hex_char(d as nat));
        assert(hex_char(0) == '0');
        assert forall|i: int| 0 <= i < j implies digits[i] == '0' by {
            assert(values@[i] == 0);
        }
        if j < 63 {
            assert(values@[j as int] != 0);
            assert(values@[j as int] < 16);
            assert(digits[j as int] != '0');
        }
        lemma_drop_leading_zeros(digits, j as int);
        assert(values@.skip(j as int).map_values(|d: u8| hex_char(d as nat)) =~= digits.skip(j as int));
    }
    s
}

/// Encodes bytes as `0x` and two hex digits per byte.
pub fn encode_bytes(b: &[u8]) -> (r: String)
    ensures
        r@ == bytes_text(b@),
{
    let mut s = String::from_str("0x");
    let mut i: usize = 0;
    assert(b@.take(0) =~= Seq::<u8>::empty());
    while i < b.len()
        invariant
            i <= b@.len(),
            s@ == "0x"@ + bytes_digits(b@.take(i as int)),
        decreases b@.len() - i,
    {
        let x = b[i];
        let ghost t = b@.take(i + 1);
        assert(t.drop_last() =~= b@.take(i as int));
        assert(t.last() == x);
        s.append(digit_str(x / 16));
        s.append(digit_str(x % 16));
        proof {
            reveal_with_fuel(hex_digits, 3);
            assert((x as nat / 16) / 16 == 0);
            assert(hex_digits(x as nat, 2) =~= seq![hex_char((x / 16) as nat), hex_char((x % 16) as nat)]);
        }
        i = i + 1;
    }
    assert(b@.take(i as int) =~= b@);
    s
}


/// An address as `0x` and forty hex digits.
pub open spec fn address_text(a: Address) -> Seq<char> {
    "0x"@ + hex_digits(a.high as nat, 8) + hex_digits(a.low as nat, 32)
}

/// Encodes an address as `0x` and forty hex digits.
pub fn encode_address(a: Address) -> (r: String)
    ensures
        r@ == address_text(a),
{
    let hi = digit_values(a.high as u128, 8);
    let lo = digit_values(a.low, 32);
    let mut s = String::from_str("0x");
    proof {
        assert forall|i: int| 0 <= i < 8 implies #[trigger] hi@[i] < 16 by {}
        assert forall|i: int| 0 <= i < 32 implies #[trigger] lo@[i] < 16 by {}
    }
    push_digits(&mut s, &hi, 0);
    push_digits(&mut s, &lo, 0);
    proof {
        lemma_hex_digits_len(a.high as nat, 8);
        lemma_hex_digits_len(a.low as nat, 32);
        assert forall|i: int| 0 <= i < 8 implies hex_digits(a.high as nat, 8)[i] == hex_char(
            hi@[i] as nat,
        ) by {
            lemma_hex_digits_index(a.high as nat, 8, i);
        }
        assert forall|i: int| 0 <= i < 32 implies hex_digits(a.low as nat, 32)[i] == hex_char(
            lo@[i] as nat,
        ) by {
            lemma_hex_digits_index(a.low as nat, 32, i);
        }
        assert(hi@.skip(0).map_values(|d: u8| hex_char(d as nat)) =~= hex_digits(a.high as nat, 8));
        assert(lo@.skip(0).map_values(|d: u8| hex_char(d as nat)) =~= hex_digits(a.low as nat, 32));
    }
    s
}

} // verus!
