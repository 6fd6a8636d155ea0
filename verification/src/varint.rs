//! Variable-length unsigned integers: the wire form of every length, count,
//! and index field of the name section.
//!
//! A value is written in little-endian groups of seven bits, one group per
//! byte, with the high bit set on every byte but the last.  Decoding is
//! strict: it rejects encodings of more than five bytes, values outside the
//! 32-bit range, and padded (non-minimal) encodings, so that whatever decodes
//! re-encodes to exactly the bytes that were read.

use vstd::prelude::*;

use crate::DecodeError;

verus! {

use vstd::arithmetic::div_mod::lemma_fundamental_div_mod;
use vstd::arithmetic::div_mod::lemma_fundamental_div_mod_converse;

/// The encoding of `v`: its low seven bits (with the continuation bit set)
/// followed by the encoding of the rest, or a single byte when `v` is small.
pub open spec fn var_u32_enc(v: nat) -> Seq<u8>
    decreases v,
{
    if v < 128 {
        seq![v as u8]
    } else {
        seq![(v % 128 + 128) as u8] + var_u32_enc(v / 128)
    }
}

/// Strict decode of a variable-length integer from the front of `s`, allowing
/// at most `max` bytes: the value and how many bytes it took.  A continuation
/// byte with nothing after it is a truncation; running past `max` bytes or a
/// trailing part that encodes zero (padding) is a malformed varint.
pub open spec fn leb_dec(s: Seq<u8>, max: nat) -> Result<(nat, nat), DecodeError>
    decreases max,
{
    if max == 0 {
        Err(DecodeError::MalformedVarint)
    } else if s.len() == 0 {
        Err(DecodeError::Truncated)
    } else if s[0] < 128 {
        Ok(((s[0] as nat), 1))
    } else {
        match leb_dec(s.drop_first(), (max - 1) as nat) {
            Ok((hi, n)) => {
                if hi == 0 {
                    Err(DecodeError::MalformedVarint)
                } else {
                    Ok((((s[0] - 128) as nat) + 128 * hi, n + 1))
                }
            },
            Err(e) => Err(e),
        }
    }
}

/// Decode of an unsigned 32-bit varint: at most five bytes, and the value
/// must fit the 32-bit range.  Returns the value and the bytes consumed.
pub open spec fn var_u32_dec(s: Seq<u8>) -> Result<(u32, int), DecodeError> {
    match leb_dec(s, 5) {
        Ok((v, n)) => {
            if v < 0x1_0000_0000 {
                Ok((v as u32, n as int))
            } else {
                Err(DecodeError::MalformedVarint)
            }
        },
        Err(e) => Err(e),
    }
}

/// Exclusive upper bound of the values that `max` bytes can carry: `128^max`.
pub open spec fn leb_bound(max: nat) -> nat
    decreases max,
{
    if max == 0 {
        1
    } else {
        128 * leb_bound((max - 1) as nat)
    }
}

pub proof fn lemma_leb_bound_pos(max: nat)
    ensures
        leb_bound(max) >= 1,
    decreases max,
{
    if max > 0 {
        lemma_leb_bound_pos((max - 1) as nat);
    }
}

pub proof fn lemma_leb_bound_mono(a: nat, b: nat)
    requires
        a <= b,
    ensures
        leb_bound(a) <= leb_bound(b),
    decreases b,
{
    if a < b {
        lemma_leb_bound_mono(a, (b - 1) as nat);
        lemma_leb_bound_pos((b - 1) as nat);
    }
}

pub proof fn lemma_leb_bound_5()
    ensures
        leb_bound(4) == 0x1000_0000,
        leb_bound(5) == 0x8_0000_0000,
{
    assert(leb_bound(0) == 1);
    assert(leb_bound(1) == 128);
    assert(leb_bound(2) == 0x4000);
    assert(leb_bound(3) == 0x20_0000);
    assert(leb_bound(4) == 0x1000_0000);
    assert(leb_bound(5) == 0x8_0000_0000);
}

/// A successful decode stays within `max` bytes, consumes at least one byte
/// and no more than the stream holds, and yields a value below `128^max`.
pub proof fn lemma_leb_dec_bounds(s: Seq<u8>, max: nat)
    ensures
        match leb_dec(s, max) {
            Ok((v, n)) => v < leb_bound(max) && 1 <= n <= max && n <= s.len(),
            Err(_) => true,
        },
    decreases max,
{
    if max > 0 && s.len() > 0 {
        if s[0] >= 128 {
            lemma_leb_dec_bounds(s.drop_first(), (max - 1) as nat);
        } else {
            assert(leb_bound(0) == 1);
            assert(leb_bound(1) == 128);
            lemma_leb_bound_mono(1, max);
        }
    }
}

/// The encoding of a value below `128^k` takes at most `k` bytes.
pub proof fn lemma_var_u32_enc_len(v: nat, k: nat)
    requires
        v < leb_bound(k),
        k >= 1,
    ensures
        1 <= var_u32_enc(v).len() <= k,
    decreases v,
{
    if v >= 128 {
        assert(leb_bound(0) == 1);
        assert(leb_bound(1) == 128);
        if k == 1 {
            assert(false);
        } else {
            lemma_fundamental_div_mod(v as int, 128);
            lemma_var_u32_enc_len(v / 128, (k - 1) as nat);
        }
    } else {
        lemma_leb_bound_pos((k - 1) as nat);
    }
}

/// Decoding a stream that begins with the encoding of `v` yields `v` back
/// and consumes exactly the encoding, whatever follows it.
pub proof fn lemma_leb_enc_dec(v: nat, rest: Seq<u8>, max: nat)
    requires
        var_u32_enc(v).len() <= max,
    ensures
        leb_dec(var_u32_enc(v) + rest, max) == Ok::<(nat, nat), DecodeError>((
            v,
            var_u32_enc(v).len() as nat,
        )),
    decreases v,
{
    let s = var_u32_enc(v) + rest;
    if v < 128 {
        assert(s[0] == v as u8);
    } else {
        lemma_fundamental_div_mod(v as int, 128);
        assert(s[0] == (v % 128 + 128) as u8);
        assert(s[0] >= 128);
        assert(s.drop_first() =~= var_u32_enc(v / 128) + rest);
        lemma_leb_enc_dec(v / 128, rest, (max - 1) as nat);
        assert(v / 128 >= 1);
        assert(((s[0] - 128) as nat) + 128 * (v / 128) == v);
    }
}

/// Whatever a strict decode accepts is exactly the encoding of its value:
/// the bytes consumed re-encode to themselves.
pub proof fn lemma_leb_dec_enc(s: Seq<u8>, max: nat)
    ensures
        match leb_dec(s, max) {
            Ok((v, n)) => var_u32_enc(v) == s.take(n as int),
            Err(_) => true,
        },
    decreases max,
{
    lemma_leb_dec_bounds(s, max);
    match leb_dec(s, max) {
        Ok((v, n)) => {
            if s[0] < 128 {
                assert(var_u32_enc(v) =~= s.take(n as int));
            } else {
                lemma_leb_dec_enc(s.drop_first(), (max - 1) as nat);
                lemma_leb_dec_bounds(s.drop_first(), (max - 1) as nat);
                match leb_dec(s.drop_first(), (max - 1) as nat) {
                    Ok((hi, m)) => {
                        lemma_fundamental_div_mod_converse(
                            v as int,
                            128,
                            hi as int,
                            (s[0] - 128) as int,
                        );
                        assert(v >= 128);
                        assert(var_u32_enc(v) == seq![(v % 128 + 128) as u8] + var_u32_enc(v / 128));
                        assert((v % 128 + 128) as u8 == s[0]);
                        assert(var_u32_enc(v / 128) == s.drop_first().take(m as int));
                        assert(var_u32_enc(v) =~= s.take(n as int));
                    },
                    Err(_) => {
                        assert(false);
                    },
                }
            }
        },
        Err(_) => {},
    }
}

/// Round trip of the 32-bit form: the encoding of `v` decodes to `v`.
pub proof fn lemma_var_u32_enc_dec(v: u32, rest: Seq<u8>)
    ensures
        var_u32_dec(var_u32_enc(v as nat) + rest) == Ok::<(u32, int), DecodeError>((
            v,
            var_u32_enc(v as nat).len() as int,
        )),
        1 <= var_u32_enc(v as nat).len() <= 5,
{
    lemma_leb_bound_5();
    lemma_var_u32_enc_len(v as nat, 5);
    lemma_leb_enc_dec(v as nat, rest, 5);
}

/// Inverse round trip of the 32-bit form: the bytes a decode consumes are
/// exactly the encoding of the value it returns.
pub proof fn lemma_var_u32_dec_enc(s: Seq<u8>)
    ensures
        match var_u32_dec(s) {
            Ok((v, n)) => var_u32_enc(v as nat) == s.take(n) && 1 <= n <= s.len() && n <= 5,
            Err(_) => true,
        },
{
    lemma_leb_dec_enc(s, 5);
    lemma_leb_dec_bounds(s, 5);
}

/// Appends the encoding of `v` to `out`.
pub fn encode_var_u32(v: u32, out: &mut Vec<u8>)
    ensures
        final(out)@ == old(out)@ + var_u32_enc(v as nat),
    decreases v,
{
    if v < 128 {
        out.push(v as u8);
        assert(out@ =~= old(out)@ + var_u32_enc(v as nat));
    } else {
        out.push((v % 128 + 128) as u8);
        encode_var_u32(v / 128, out);
        proof {
            lemma_fundamental_div_mod(v as int, 128);
            assert(out@ =~= old(out)@ + var_u32_enc(v as nat));
        }
    }
}

/// Reads a variable-length integer at `pos`, strict form, at most `max`
/// bytes; yields the raw value and the position after it.
fn decode_leb(bytes: &Vec<u8>, pos: usize, max: u8) -> (r: Result<(u64, usize), DecodeError>)
    requires
        pos <= bytes@.len(),
        max <= 5,
    ensures
        match r {
            Ok(p) => {
                &&& leb_dec(bytes@.skip(pos as int), max as nat) == Ok::<(nat, nat), DecodeError>((
                    p.0 as nat,
                    (p.1 - pos) as nat,
                ))
                &&& pos < p.1 <= bytes@.len()
            },
            Err(e) => leb_dec(bytes@.skip(pos as int), max as nat) == Err::<(nat, nat), DecodeError>(
                e,
            ),
        },
    decreases max,
{
    let ghost s = bytes@.skip(pos as int);
    if max == 0 {
        Err(DecodeError::MalformedVarint)
    } else if pos == bytes.len() {
        Err(DecodeError::Truncated)
    } else {
        let b = bytes[pos];
        assert(b == s[0]);
        if b < 128 {
            Ok((b as u64, pos + 1))
        } else {
            assert(s.drop_first() =~= bytes@.skip(pos as int + 1));
            match decode_leb(bytes, pos + 1, max - 1) {
                Ok((hi, end)) => {
                    proof {
                        lemma_leb_dec_bounds(bytes@.skip(pos as int + 1), (max - 1) as nat);
                        lemma_leb_bound_mono((max - 1) as nat, 4);
                        lemma_leb_bound_5();
                    }
                    if hi == 0 {
                        Err(DecodeError::MalformedVarint)
                    } else {
                        Ok((((b - 128) as u64) + 128 * hi, end))
                    }
                },
                Err(e) => Err(e),
            }
        }
    }
}

/// Reads an unsigned 32-bit varint at `pos`: the value and the position
/// after it, or exactly the error that the strict decode assigns the input.
pub fn decode_var_u32(bytes: &Vec<u8>, pos: usize) -> (r: Result<(u32, usize), DecodeError>)
    requires
        pos <= bytes@.len(),
    ensures
        match r {
            Ok(p) => {
                &&& var_u32_dec(bytes@.skip(pos as int)) == Ok::<(u32, int), DecodeError>((
                    p.0,
                    p.1 - pos,
                ))
                &&& pos < p.1 <= bytes@.len()
            },
            Err(e) => var_u32_dec(bytes@.skip(pos as int)) == Err::<(u32, int), DecodeError>(e),
        },
{
    match decode_leb(bytes, pos, 5) {
        Ok((v, end)) => {
            if v < 0x1_0000_0000u64 {
                Ok((v as u32, end))
            } else {
                Err(DecodeError::MalformedVarint)
            }
        },
        Err(e) => Err(e),
    }
}

} // verus!
