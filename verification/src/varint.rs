//! Variable-length unsigned integer encoding.
//!
//! An unsigned integer is written seven data bits per byte, least significant
//! group first; the high bit of each byte is set exactly when another byte
//! follows. This is the primitive that every composite encoding of the crate
//! bottoms out in: enum ordinals, lengths, character code points, and the
//! normalised two's-complement images of the signed scalars.

use vstd::prelude::*;
use crate::err::CodecError;

verus! {

/// `128^k`, the number of values expressible in `k` seven-bit groups.
pub open spec fn pow128(k: nat) -> nat
    decreases k,
{
    if k == 0 {
        1
    } else {
        128 * pow128((k - 1) as nat)
    }
}

/// The wire image of `n`: seven data bits per byte, low group first,
/// high bit set on every byte but the last.
pub open spec fn vleb(n: nat) -> Seq<u8>
    decreases n,
    via vleb_decreases
{
    if n < 128 {
        seq![n as u8]
    } else {
        seq![(128 + n % 128) as u8] + vleb(n / 128)
    }
}

#[via_fn]
proof fn vleb_decreases(n: nat) {
    if n >= 128 {
        vstd::arithmetic::div_mod::lemma_div_decreases(n as int, 128);
    }
}

/// The result of parsing a varint from the front of `input` with at most
/// `fuel` bytes: the value and the number of bytes consumed, or
/// `MalformedData` when the input ends or the continuation run exceeds
/// `fuel` bytes.
pub open spec fn parse_vleb(input: Seq<u8>, fuel: nat) -> Result<(nat, int), CodecError>
    decreases fuel,
{
    if fuel == 0 || input.len() == 0 {
        Err(CodecError::MalformedData)
    } else if input[0] < 128 {
        Ok((input[0] as nat, 1))
    } else {
        match parse_vleb(input.skip(1), (fuel - 1) as nat) {
            Ok((m, k)) => Ok((((input[0] - 128) + 128 * m) as nat, k + 1)),
            Err(e) => Err(e),
        }
    }
}

/// A successful parse consumes between one and `fuel` bytes, never more than
/// the input holds, and yields a value below `128^fuel`.
pub proof fn lemma_parse_vleb_bounds(input: Seq<u8>, fuel: nat)
    ensures
        parse_vleb(input, fuel) matches Ok((m, k)) ==> m < pow128(fuel) && 1 <= k <= fuel
            && k <= input.len(),
    decreases fuel,
{
    if fuel > 0 && input.len() > 0 {
        if input[0] < 128 {
            lemma_pow128_increases(1, fuel);
            assert(pow128(1) == 128 * pow128(0));
            assert(pow128(0) == 1);
        } else {
            lemma_parse_vleb_bounds(input.skip(1), (fuel - 1) as nat);
            if parse_vleb(input.skip(1), (fuel - 1) as nat) is Ok {
                let m = parse_vleb(input.skip(1), (fuel - 1) as nat)->Ok_0.0;
                assert(pow128(fuel) == 128 * pow128((fuel - 1) as nat));
                assert(128 * m <= 128 * (pow128((fuel - 1) as nat) - 1)) by (nonlinear_arith)
                    requires
                        m <= pow128((fuel - 1) as nat) - 1,
                ;
            }
        }
    }
}

/// The encoding of `n` is never empty, and is at most `k` bytes long
/// whenever `n < 128^k`.
pub proof fn lemma_vleb_len(n: nat, k: nat)
    requires
        1 <= k,
        n < pow128(k),
    ensures
        1 <= vleb(n).len() <= k,
    decreases k,
{
    if n >= 128 {
        vstd::arithmetic::div_mod::lemma_fundamental_div_mod(n as int, 128);
        assert(n / 128 < pow128((k - 1) as nat)) by {
            assert(128 * (n / 128) <= n);
        }
        lemma_vleb_len(n / 128, (k - 1) as nat);
    }
}

/// Parsing is a left inverse of encoding: the front of `vleb(n) + rest`
/// parses back to `n`, consuming exactly the encoding, for any `fuel` that
/// admits the encoding's length.
pub proof fn lemma_parse_of_vleb(n: nat, rest: Seq<u8>, fuel: nat)
    requires
        vleb(n).len() <= fuel,
    ensures
        parse_vleb(vleb(n) + rest, fuel) == Ok::<(nat, int), CodecError>((
            n,
            vleb(n).len() as int,
        )),
    decreases n,
{
    let s = vleb(n) + rest;
    if n < 128 {
        assert(s[0] == n as u8);
    } else {
        assert(s[0] == (128 + n % 128) as u8);
        assert(s.skip(1) =~= vleb(n / 128) + rest);
        vstd::arithmetic::div_mod::lemma_div_decreases(n as int, 128);
        lemma_parse_of_vleb(n / 128, rest, (fuel - 1) as nat);
        vstd::arithmetic::div_mod::lemma_fundamental_div_mod(n as int, 128);
    }
}

/// Appends the varint encoding of `n` to `out`.
pub fn write_vleb(out: &mut Vec<u8>, n: u64)
    ensures
        final(out)@ == old(out)@ + vleb(n as nat),
    decreases n,
{
    if n < 128 {
        out.push(n as u8);
        proof {
            assert(out@ =~= old(out)@ + vleb(n as nat));
        }
    } else {
        let b: u8 = (128 + (n % 128)) as u8;
        out.push(b);
        proof {
            vstd::arithmetic::div_mod::lemma_div_decreases(n as int, 128);
        }
        write_vleb(out, n / 128);
        proof {
            assert(out@ =~= old(out)@ + vleb(n as nat));
        }
    }
}

/// Reads a varint of at most `fuel` bytes from `data` at `pos`,
/// returning the value and the position after it.
pub fn read_vleb(data: &Vec<u8>, pos: usize, fuel: u8) -> (r: Result<(u128, usize), CodecError>)
    requires
        pos <= data@.len(),
        fuel <= 10,
    ensures
        match parse_vleb(data@.skip(pos as int), fuel as nat) {
            Ok((m, k)) => r matches Ok((v, p)) && v as nat == m && p == pos + k,
            Err(e) => r == Err::<(u128, usize), CodecError>(e),
        },
    decreases fuel,
{
    proof {
        lemma_parse_vleb_bounds(data@.skip(pos as int), fuel as nat);
    }
    if fuel == 0 || pos == data.len() {
        return Err(CodecError::MalformedData);
    }
    let b = data[pos];
    if b < 128 {
        Ok((b as u128, pos + 1))
    } else {
        proof {
            assert(data@.skip(pos as int).skip(1) =~= data@.skip(pos as int + 1));
        }
        match read_vleb(data, pos + 1, fuel - 1) {
            Ok((m, p)) => {
                proof {
                    lemma_parse_vleb_bounds(data@.skip(pos as int + 1), (fuel - 1) as nat);
                    lemma_pow128_values();
                    lemma_pow128_increases((fuel - 1) as nat, 9);
                }
                Ok(((b - 128) as u128 + 128 * m, p))
            },
            Err(e) => Err(e),
        }
    }
}

/// Concrete powers of `128` that the byte-count arguments rely on.
pub proof fn lemma_pow128_values()
    ensures
        pow128(5) == 0x8_0000_0000,
        pow128(9) == 0x8000_0000_0000_0000,
        pow128(10) == 0x40_0000_0000_0000_0000,
{
    reveal_with_fuel(pow128, 11);
}

/// `pow128` is monotone in its exponent.
pub proof fn lemma_pow128_increases(j: nat, k: nat)
    requires
        j <= k,
    ensures
        pow128(j) <= pow128(k),
    decreases k,
{
    if j < k {
        lemma_pow128_increases(j, (k - 1) as nat);
        assert(pow128(k) == 128 * pow128((k - 1) as nat));
    }
}

/// The parse of a 32-bit varint: at most five bytes, value below `2^32`.
pub open spec fn parse_varu32(input: Seq<u8>) -> Result<(nat, int), CodecError> {
    match parse_vleb(input, 5) {
        Ok((m, k)) => if m < 0x1_0000_0000 {
            Ok((m, k))
        } else {
            Err(CodecError::MalformedData)
        },
        Err(e) => Err(e),
    }
}

/// The parse of a 64-bit varint: at most ten bytes, value below `2^64`.
pub open spec fn parse_varu64(input: Seq<u8>) -> Result<(nat, int), CodecError> {
    match parse_vleb(input, 10) {
        Ok((m, k)) => if m < 0x1_0000_0000_0000_0000 {
            Ok((m, k))
        } else {
            Err(CodecError::MalformedData)
        },
        Err(e) => Err(e),
    }
}

/// Reads a 32-bit varint from `data` at `pos`.
pub fn read_varu32(data: &Vec<u8>, pos: usize) -> (r: Result<(u32, usize), CodecError>)
    requires
        pos <= data@.len(),
    ensures
        match parse_varu32(data@.skip(pos as int)) {
            Ok((m, k)) => r matches Ok((v, p)) && v as nat == m && p == pos + k,
            Err(e) => r == Err::<(u32, usize), CodecError>(e),
        },
{
    match read_vleb(data, pos, 5) {
        Ok((v, p)) => if v < 0x1_0000_0000 {
            Ok((v as u32, p))
        } else {
            Err(CodecError::MalformedData)
        },
        Err(e) => Err(e),
    }
}

/// Reads a 64-bit varint from `data` at `pos`.
pub fn read_varu64(data: &Vec<u8>, pos: usize) -> (r: Result<(u64, usize), CodecError>)
    requires
        pos <= data@.len(),
    ensures
        match parse_varu64(data@.skip(pos as int)) {
            Ok((m, k)) => r matches Ok((v, p)) && v as nat == m && p == pos + k,
            Err(e) => r == Err::<(u64, usize), CodecError>(e),
        },
{
    match read_vleb(data, pos, 10) {
        Ok((v, p)) => if v < 0x1_0000_0000_0000_0000 {
            Ok((v as u64, p))
        } else {
            Err(CodecError::MalformedData)
        },
        Err(e) => Err(e),
    }
}

/// The round trip of `parse_varu32` over `vleb`, for values below `2^32`.
pub proof fn lemma_parse_varu32_of_vleb(n: nat, rest: Seq<u8>)
    requires
        n < 0x1_0000_0000,
    ensures
        parse_varu32(vleb(n) + rest) == Ok::<(nat, int), CodecError>((n, vleb(n).len() as int)),
{
    lemma_pow128_values();
    lemma_vleb_len(n, 5);
    lemma_parse_of_vleb(n, rest, 5);
}

/// The round trip of `parse_varu64` over `vleb`, for values below `2^64`.
pub proof fn lemma_parse_varu64_of_vleb(n: nat, rest: Seq<u8>)
    requires
        n < 0x1_0000_0000_0000_0000,
    ensures
        parse_varu64(vleb(n) + rest) == Ok::<(nat, int), CodecError>((n, vleb(n).len() as int)),
{
    lemma_pow128_values();
    lemma_vleb_len(n, 10);
    lemma_parse_of_vleb(n, rest, 10);
}

} // verus!
