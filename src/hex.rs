//! Hex and decimal digits of quantities, addresses, hashes and byte strings.

use crate::types::{pow2_128, Address, H256, U256};
use vstd::prelude::*;
use vstd::string::StringSliceAdditionalSpecFns;
use vstd::utf8::encode_utf8_decode_utf8;

verus! {

/// The value of a hex digit.
pub open spec fn hex_val(b: u8) -> Option<nat> {
    if 0x30 <= b <= 0x39 {
        Some((b - 0x30) as nat)
    } else if 0x61 <= b <= 0x66 {
        Some((b - 0x61 + 10) as nat)
    } else if 0x41 <= b <= 0x46 {
        Some((b - 0x41 + 10) as nat)
    } else {
        None
    }
}

/// The number that hex digits spell, most significant first.
pub open spec fn hex_number(d: Seq<u8>) -> Option<nat>
    decreases d.len(),
{
    if d.len() == 0 {
        Some(0)
    } else {
        match (hex_number(d.drop_last()), hex_val(d.last())) {
            (Some(n), Some(x)) => Some(n * 16 + x),
            _ => None,
        }
    }
}

/// The number that decimal digits spell, most significant first.
pub open spec fn dec_number(d: Seq<u8>) -> Option<nat>
    decreases d.len(),
{
    if d.len() == 0 {
        Some(0)
    } else if 0x30 <= d.last() <= 0x39 {
        match dec_number(d.drop_last()) {
            Some(n) => Some(n * 10 + (d.last() - 0x30) as nat),
            None => None,
        }
    } else {
        None
    }
}

/// The text starts with `0x`.
pub open spec fn has_0x(b: Seq<u8>) -> bool {
    b.len() >= 2 && b[0] == 0x30 && b[1] == 0x78
}

pub open spec fn pow16(n: nat) -> nat
    decreases n,
{
    if n == 0 {
        1
    } else {
        16 * pow16((n - 1) as nat)
    }
}

pub proof fn lemma_hex_number_bound(d: Seq<u8>)
    ensures
        hex_number(d) matches Some(n) ==> n < pow16(d.len()),
    decreases d.len(),
{
    if d.len() > 0 {
        lemma_hex_number_bound(d.drop_last());
        if let (Some(n), Some(x)) = (hex_number(d.drop_last()), hex_val(d.last())) {
            let p = pow16(d.drop_last().len());
            assert(n * 16 + x < 16 * p) by (nonlinear_arith)
                requires
                    n < p,
                    x < 16,
            ;
        }
    }
}

proof fn lemma_pow16_32()
    ensures
        pow16(32) == pow2_128(),
        pow16(8) == 0x1_0000_0000,
{
    reveal_with_fuel(pow16, 33);
}

pub proof fn lemma_pow16_mono(a: nat, b: nat)
    requires
        a <= b,
    ensures
        pow16(a) <= pow16(b),
    decreases b,
{
    if a < b {
        lemma_pow16_mono(a, (b - 1) as nat);
    }
}

/// The value of a hex digit byte.
pub fn hex_digit(b: u8) -> (r: Option<u8>)
    ensures
        match r {
            Some(x) => hex_val(b) == Some(x as nat),
            None => hex_val(b) is None,
        },
{
    if 0x30 <= b && b <= 0x39 {
        Some(b - 0x30)
    } else if 0x61 <= b && b <= 0x66 {
        Some(b - 0x61 + 10)
    } else if 0x41 <= b && b <= 0x46 {
        Some(b - 0x41 + 10)
    } else {
        None
    }
}

/// The number spelt by the hex digits `b[from..to]`, at most 32 of them.
pub fn parse_hex_u128(b: &[u8], from: usize, to: usize) -> (r: Option<u128>)
    requires
        from <= to <= b@.len(),
        to - from <= 32,
    ensures
        match r {
            Some(v) => hex_number(b@.subrange(from as int, to as int)) == Some(v as nat),
            None => hex_number(b@.subrange(from as int, to as int)) is None,
        },
{
    let mut acc: u128 = 0;
    let mut i: usize = from;
    proof {
        assert(b@.subrange(from as int, from as int) =~= Seq::<u8>::empty());
    }
    while i < to
        invariant
            from <= i <= to <= b@.len(),
            to - from <= 32,
            hex_number(b@.subrange(from as int, i as int)) == Some(acc as nat),
        decreases to - i,
    {
        let ghost d = b@.subrange(from as int, i + 1);
        assert(d.drop_last() =~= b@.subrange(from as int, i as int));
        assert(d.last() == b@[i as int]);
        match hex_digit(b[i]) {
            None => {
                proof {
                    lemma_hex_none_extends(b@.subrange(from as int, to as int), i - from);
                    assert(b@.subrange(from as int, to as int).take(i - from + 1) =~= d);
                }
                return None;
            },
            Some(x) => {
                proof {
                    lemma_hex_number_bound(d);
                    lemma_pow16_mono(d.len(), 32);
                    lemma_pow16_32();
                }
                acc = acc * 16 + x as u128;
            },
        }
        i = i + 1;
    }
    Some(acc)
}

/// Digits that fail to parse still fail with more digits behind them.
pub proof fn lemma_hex_none_extends(d: Seq<u8>, k: int)
    requires
        0 <= k < d.len(),
        hex_number(d.take(k + 1)) is None,
    ensures
        hex_number(d) is None,
    decreases d.len() - k,
{
    if k + 1 < d.len() {
        assert(d.drop_last().take(k + 1) =~= d.take(k + 1));
        lemma_hex_none_extends(d.drop_last(), k);
    } else {
        assert(d.take(k + 1) =~= d);
    }
}

/// A quantity: `0x` and one to sixty-four hex digits.
pub open spec fn spec_u256(b: Seq<u8>) -> Option<U256> {
    let d = b.skip(2);
    if !has_0x(b) || d.len() == 0 || d.len() > 64 {
        None
    } else if d.len() <= 32 {
        match hex_number(d) {
            Some(low) => Some(U256 { high: 0, low: low as u128 }),
            None => None,
        }
    } else {
        match (hex_number(d.take(d.len() - 32)), hex_number(d.skip(d.len() - 32))) {
            (Some(high), Some(low)) => Some(U256 { high: high as u128, low: low as u128 }),
            _ => None,
        }
    }
}

/// An address: `0x` and forty hex digits.
pub open spec fn spec_address(b: Seq<u8>) -> Option<Address> {
    let d = b.skip(2);
    if !has_0x(b) || d.len() != 40 {
        None
    } else {
        match (hex_number(d.take(8)), hex_number(d.skip(8))) {
            (Some(high), Some(low)) => Some(Address { high: high as u32, low: low as u128 }),
            _ => None,
        }
    }
}

/// A 32-byte hash: `0x` and sixty-four hex digits.
pub open spec fn spec_h256(b: Seq<u8>) -> Option<H256> {
    let d = b.skip(2);
    if !has_0x(b) || d.len() != 64 {
        None
    } else {
        match (hex_number(d.take(32)), hex_number(d.skip(32))) {
            (Some(high), Some(low)) => Some(H256 { high: high as u128, low: low as u128 }),
            _ => None,
        }
    }
}

/// A 64-bit quantity: `0x` and one to sixteen hex digits.
pub open spec fn spec_hex_u64(b: Seq<u8>) -> Option<u64> {
    let d = b.skip(2);
    if !has_0x(b) || d.len() == 0 || d.len() > 16 {
        None
    } else {
        match hex_number(d) {
            Some(n) => Some(n as u64),
            None => None,
        }
    }
}

/// An unsigned decimal that fits 64 bits: one or more digits.
pub open spec fn spec_dec_u64(b: Seq<u8>) -> Option<u64> {
    if b.len() == 0 {
        None
    } else {
        match dec_number(b) {
            Some(n) => if n <= u64::MAX {
                Some(n as u64)
            } else {
                None
            },
            None => None,
        }
    }
}

/// A byte string: `0x` and two hex digits per byte.
pub open spec fn spec_bytes(b: Seq<u8>) -> Option<Seq<u8>> {
    let d = b.skip(2);
    if !has_0x(b) || d.len() % 2 != 0 {
        None
    } else if forall|i: int| 0 <= i < d.len() ==> (#[trigger] hex_val(d[i])) is Some {
        Some(
            Seq::new(
                (d.len() / 2) as nat,
                |i: int| (hex_val(d[2 * i]).unwrap() * 16 + hex_val(d[2 * i + 1]).unwrap()) as u8,
            ),
        )
    } else {
        None
    }
}

proof fn lemma_hex_digits_fit(d: Seq<u8>, n: nat)
    requires
        hex_number(d) == Some(n),
    ensures
        n < pow16(d.len()),
{
    lemma_hex_number_bound(d);
}

/// Parses a quantity.
pub fn parse_u256(b: &[u8]) -> (r: Option<U256>)
    ensures
        r == spec_u256(b@),
{
    let len = b.len();
    if len < 2 || b[0] != 0x30 || b[1] != 0x78 || len - 2 == 0 || len - 2 > 64 {
        return None;
    }
    let ghost d = b@.skip(2);
    if len - 2 <= 32 {
        assert(b@.subrange(2, len as int) =~= d);
        match parse_hex_u128(b, 2, len) {
            Some(low) => Some(U256 { high: 0, low }),
            None => None,
        }
    } else {
        let mid = len - 32;
        assert(b@.subrange(2, mid as int) =~= d.take(d.len() - 32));
        assert(b@.subrange(mid as int, len as int) =~= d.skip(d.len() - 32));
        let high = parse_hex_u128(b, 2, mid);
        let low = parse_hex_u128(b, mid, len);
        match (high, low) {
            (Some(high), Some(low)) => Some(U256 { high, low }),
            _ => None,
        }
    }
}

/// Parses an address.
pub fn parse_address(b: &[u8]) -> (r: Option<Address>)
    ensures
        r == spec_address(b@),
{
    let len = b.len();
    if len < 2 || b[0] != 0x30 || b[1] != 0x78 || len - 2 != 40 {
        return None;
    }
    let ghost d = b@.skip(2);
    assert(b@.subrange(2, 10) =~= d.take(8));
    assert(b@.subrange(10, 42) =~= d.skip(8));
    let high = parse_hex_u128(b, 2, 10);
    let low = parse_hex_u128(b, 10, 42);
    match (high, low) {
        (Some(high), Some(low)) => {
            proof {
                lemma_hex_digits_fit(d.take(8), high as nat);
                lemma_pow16_32();
            }
            Some(Address { high: high as u32, low })
        },
        _ => None,
    }
}

/// Parses a 32-byte hash.
pub fn parse_h256(b: &[u8]) -> (r: Option<H256>)
    ensures
        r == spec_h256(b@),
{
    let len = b.len();
    if len < 2 || b[0] != 0x30 || b[1] != 0x78 || len - 2 != 64 {
        return None;
    }
    let ghost d = b@.skip(2);
    assert(b@.subrange(2, 34) =~= d.take(32));
    assert(b@.subrange(34, 66) =~= d.skip(32));
    let high = parse_hex_u128(b, 2, 34);
    let low = parse_hex_u128(b, 34, 66);
    match (high, low) {
        (Some(high), Some(low)) => Some(H256 { high, low }),
        _ => None,
    }
}

/// Parses a 64-bit hex quantity.
pub fn parse_hex_u64(b: &[u8]) -> (r: Option<u64>)
    ensures
        r == spec_hex_u64(b@),
{
    let len = b.len();
    if len < 2 || b[0] != 0x30 || b[1] != 0x78 || len - 2 == 0 || len - 2 > 16 {
        return None;
    }
    assert(b@.subrange(2, len as int) =~= b@.skip(2));
    match parse_hex_u128(b, 2, len) {
        Some(v) => {
            proof {
                lemma_hex_digits_fit(b@.skip(2), v as nat);
                lemma_pow16_mono(b@.skip(2).len(), 16);
                reveal_with_fuel(pow16, 17);
            }
            Some(v as u64)
        },
        None => None,
    }
}

/// Parses an unsigned decimal that fits 64 bits.
pub fn parse_dec_u64(b: &[u8]) -> (r: Option<u64>)
    ensures
        r == spec_dec_u64(b@),
{
    if b.len() == 0 {
        return None;
    }
    let mut acc: u64 = 0;
    let mut i: usize = 0;
    assert(b@.take(0) =~= Seq::<u8>::empty());
    while i < b.len()
        invariant
            i <= b@.len(),
            dec_number(b@.take(i as int)) == Some(acc as nat),
        decreases b@.len() - i,
    {
        let c = b[i];
        let ghost t = b@.take(i + 1);
        assert(t.drop_last() =~= b@.take(i as int));
        assert(t.last() == c);
        if c < 0x30 || c > 0x39 {
            proof {
                lemma_dec_none_extends(b@, i as int);
            }
            return None;
        }
        let digit = (c - 0x30) as u64;
        if acc > (u64::MAX - digit) / 10 {
            proof {
                lemma_dec_overflow_extends(b@, i as int, acc as nat * 10 + digit as nat);
            }
            return None;
        }
        acc = acc * 10 + digit;
        i = i + 1;
    }
    assert(b@.take(i as int) =~= b@);
    Some(acc)
}

proof fn lemma_dec_none_extends(d: Seq<u8>, k: int)
    requires
        0 <= k < d.len(),
        !(0x30 <= d[k] <= 0x39),
    ensures
        dec_number(d) is None,
    decreases d.len() - k,
{
    if k + 1 < d.len() {
        assert(d.drop_last()[k] == d[k]);
        lemma_dec_none_extends(d.drop_last(), k);
    }
}

proof fn lemma_dec_grows(d: Seq<u8>, k: int)
    requires
        0 <= k <= d.len(),
        dec_number(d) is Some,
    ensures
        dec_number(d.take(k)) is Some,
        dec_number(d.take(k)).unwrap() <= dec_number(d).unwrap(),
    decreases d.len() - k,
{
    if k < d.len() {
        assert(d.drop_last().take(k) =~= d.take(k));
        lemma_dec_grows(d.drop_last(), k);
    } else {
        assert(d.take(k) =~= d);
    }
}

proof fn lemma_dec_overflow_extends(d: Seq<u8>, i: int, v: nat)
    requires
        0 <= i < d.len(),
        dec_number(d.take(i + 1)) == Some(v),
        v > u64::MAX,
    ensures
        spec_dec_u64(d) is None,
{
    if dec_number(d) is Some {
        lemma_dec_grows(d, i + 1);
    }
}

/// Parses a byte string.
pub fn parse_bytes(b: &[u8]) -> (r: Option<Vec<u8>>)
    ensures
        match r {
            Some(v) => spec_bytes(b@) == Some(v@),
            None => spec_bytes(b@) is None,
        },
{
    let len = b.len();
    if len < 2 || b[0] != 0x30 || b[1] != 0x78 || (len - 2) % 2 != 0 {
        return None;
    }
    let ghost d = b@.skip(2);
    let mut out: Vec<u8> = Vec::new();
    let mut i: usize = 2;
    while i < len
        invariant
            2 <= i <= len == b@.len(),
            (i - 2) % 2 == 0,
            (len - 2) % 2 == 0,
            d == b@.skip(2),
            forall|j: int| 0 <= j < i - 2 ==> (#[trigger] hex_val(d[j])) is Some,
            out@.len() == (i - 2) / 2,
            forall|j: int|
                0 <= j < out@.len() ==> #[trigger] out@[j] == (hex_val(d[2 * j]).unwrap() * 16
                    + hex_val(d[2 * j + 1]).unwrap()) as u8,
        decreases len - i,
    {
        let hi = hex_digit(b[i]);
        let lo = hex_digit(b[i + 1]);
        assert(d[i - 2] == b@[i as int] && d[i - 1] == b@[i + 1]);
        match (hi, lo) {
            (Some(hi), Some(lo)) => {
                out.push(hi * 16 + lo);
            },
            _ => {
                proof {
                    if hi is None {
                        assert(hex_val(d[i - 2]) is None);
                    } else {
                        assert(hex_val(d[i - 1]) is None);
                    }
                }
                return None;
            },
        }
        i = i + 2;
    }
    assert(out@ =~= spec_bytes(b@).unwrap());
    Some(out)
}

/// Whether two texts are the same.
pub fn text_eq(a: &str, b: &str) -> (r: bool)
    ensures
        r == (a@ == b@),
{
    let x = a.as_bytes();
    let y = b.as_bytes();
    assert(x@ == a.spec_bytes());
    assert(y@ == b.spec_bytes());
    proof {
        encode_utf8_decode_utf8(a@);
        encode_utf8_decode_utf8(b@);
    }
    if x.len() != y.len() {
        return false;
    }
    let mut i: usize = 0;
    while i < x.len()
        invariant
            i <= x@.len() == y@.len(),
            x@ == a.spec_bytes(),
            y@ == b.spec_bytes(),
            forall|j: int| 0 <= j < i ==> x@[j] == y@[j],
        decreases x@.len() - i,
    {
        if x[i] != y[i] {
            proof {
                if a@ == b@ {
                    assert(a.spec_bytes() == b.spec_bytes());
                    assert(x@ == y@);
                    assert(x@[i as int] == y@[i as int]);
                }
            }
            return false;
        }
        i = i + 1;
    }
    assert(x@ =~= y@);
    true
}

} // verus!
