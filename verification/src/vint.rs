//! Variable-length unsigned integer encoding.
//!
//! A [`VInt`] wraps a `u64` and encodes it as a little-endian-ordered base-128
//! byte sequence: each byte carries 7 payload bits (least-significant chunk
//! first) and its high bit says whether more bytes follow. Values up to 127
//! cost one byte, up to 16383 two bytes, and so on; `u64::MAX` costs ten.
//! The decoder only accepts the minimal form the encoder produces.

use vstd::prelude::*;
use vstd::arithmetic::div_mod::{lemma_fundamental_div_mod, lemma_fundamental_div_mod_converse};
use vstd::arithmetic::mul::lemma_mul_inequality;
use crate::serialize::{BinarySerializable, DeserializeError};

verus! {

/// A 64-bit unsigned integer carried in the variable-length wire format.
#[derive(Debug, Clone, Copy, PartialEq, Eq, Structural)]
pub struct VInt(pub u64);

impl View for VInt {
    type V = u64;

    open spec fn view(&self) -> u64 {
        self.0
    }
}

impl DeepView for VInt {
    type V = u64;

    open spec fn deep_view(&self) -> u64 {
        self.0
    }
}

/// The base-128 continuation-bit encoding of `n`: 7 payload bits per byte,
/// least-significant chunk first, high bit set on every byte but the last.
pub open spec fn spec_vint_encoding(n: nat) -> Seq<u8>
    decreases n,
{
    if n < 128 {
        seq![n as u8]
    } else {
        seq![(128 + n % 128) as u8] + spec_vint_encoding(n / 128)
    }
}

/// The encoding is at least one byte, and its first byte determines whether
/// the value fits in seven bits.
pub proof fn lemma_vint_encoding_first_byte(n: nat)
    ensures
        spec_vint_encoding(n).len() >= 1,
        n < 128 ==> spec_vint_encoding(n)[0] == n as u8,
        n >= 128 ==> spec_vint_encoding(n)[0] == (128 + n % 128) as u8,
        n >= 128 ==> spec_vint_encoding(n)[0] >= 128,
        n < 128 ==> spec_vint_encoding(n).len() == 1,
        n >= 128 ==> spec_vint_encoding(n) == seq![(128 + n % 128) as u8] + spec_vint_encoding(
            n / 128,
        ),
        n >= 128 ==> spec_vint_encoding(n).len() == 1 + spec_vint_encoding(n / 128).len(),
{
}

/// The last byte of an encoding has its continuation bit clear.
pub proof fn lemma_vint_encoding_last_byte(n: nat)
    ensures
        spec_vint_encoding(n).last() < 128,
    decreases n,
{
    lemma_vint_encoding_first_byte(n);
    if n >= 128 {
        lemma_vint_encoding_last_byte(n / 128);
        lemma_vint_encoding_first_byte(n / 128);
        assert(spec_vint_encoding(n).last() == spec_vint_encoding(n / 128).last());
    }
}

/// Which error a malformed stream draws: the input ran out when every byte
/// to the end still carries the continuation bit; any other malformation is
/// an invalid integer.
pub open spec fn spec_vint_decode_error(rest: Seq<u8>) -> DeserializeError {
    if forall|i: int| 0 <= i < rest.len() ==> (#[trigger] rest[i]) >= 128 {
        DeserializeError::UnexpectedEnd
    } else {
        DeserializeError::InvalidVInt
    }
}

/// Whether some value's encoding begins the stream.
pub open spec fn spec_vint_parses(rest: Seq<u8>) -> bool {
    exists|n: u64| (#[trigger] spec_vint_encoding(n as nat)).is_prefix_of(rest)
}

/// The value whose encoding begins the stream.
pub open spec fn spec_vint_value(rest: Seq<u8>) -> u64 {
    choose|n: u64| (#[trigger] spec_vint_encoding(n as nat)).is_prefix_of(rest)
}

/// Only one value's encoding can begin a stream, so `spec_vint_value` is
/// pinned by any witness.
pub proof fn lemma_vint_value_unique(rest: Seq<u8>, m: u64)
    requires
        spec_vint_encoding(m as nat).is_prefix_of(rest),
    ensures
        spec_vint_parses(rest),
        spec_vint_value(rest) == m,
{
    assert(spec_vint_parses(rest));
    let w = spec_vint_value(rest);
    assert(spec_vint_encoding(w as nat).is_prefix_of(rest));
    let ew = spec_vint_encoding(w as nat);
    let em = spec_vint_encoding(m as nat);
    if ew.len() <= em.len() {
        crate::serialize::lemma_common_prefixes(ew, em, rest);
    } else {
        crate::serialize::lemma_common_prefixes(em, ew, rest);
    }
    lemma_vint_prefix_free(w as nat, m as nat);
    lemma_vint_prefix_free(m as nat, w as nat);
}

/// No encoding is a strict prefix of another's: distinct values have
/// encodings that disagree before either one ends.
pub proof fn lemma_vint_prefix_free(a: nat, b: nat)
    ensures
        spec_vint_encoding(a).is_prefix_of(spec_vint_encoding(b)) ==> a == b,
    decreases a,
{
    let ea = spec_vint_encoding(a);
    let eb = spec_vint_encoding(b);
    if ea.is_prefix_of(eb) {
        lemma_vint_encoding_first_byte(a);
        lemma_vint_encoding_first_byte(b);
        assert(ea[0] == eb[0]);
        if a < 128 && b < 128 {
            assert(a == b);
        } else if a < 128 && b >= 128 {
            assert(ea[0] < 128 && eb[0] >= 128);
            assert(false);
        } else if a >= 128 && b < 128 {
            assert(ea.len() >= 2);
            lemma_vint_encoding_first_byte(a / 128);
            assert(eb.len() == 1);
            assert(false);
        } else {
            assert(a % 128 == b % 128);
            let ta = spec_vint_encoding(a / 128);
            let tb = spec_vint_encoding(b / 128);
            assert(ta =~= ea.skip(1));
            assert(tb =~= eb.skip(1));
            assert(ta.is_prefix_of(tb)) by {
                assert(ta.len() <= tb.len());
                assert forall|i: int| 0 <= i < ta.len() implies ta[i] == tb[i] by {
                    assert(ea[i + 1] == eb[i + 1]);
                }
                assert(ta =~= tb.subrange(0, ta.len() as int));
            }
            lemma_vint_prefix_free(a / 128, b / 128);
            assert(a == 128 * (a / 128) + a % 128) by {
                lemma_fundamental_div_mod(a as int, 128);
            }
            assert(b == 128 * (b / 128) + b % 128) by {
                lemma_fundamental_div_mod(b as int, 128);
            }
        }
    }
}

/// Exact byte cost at the documented boundaries: one byte through 127, two
/// through 16383, three from 16384, and ten for `u64::MAX`.
pub proof fn lemma_vint_encoding_boundaries(n: u64)
    ensures
        n < 128 ==> spec_vint_encoding(n as nat).len() == 1,
        128 <= n < 16384 ==> spec_vint_encoding(n as nat).len() == 2,
        16384 <= n < 2097152 ==> spec_vint_encoding(n as nat).len() == 3,
        n == u64::MAX ==> spec_vint_encoding(n as nat).len() == 10,
{
    let n0 = n as nat;
    lemma_vint_encoding_first_byte(n0);
    if 128 <= n < 16384 {
        lemma_vint_encoding_first_byte(n0 / 128);
        assert(n0 / 128 < 128);
    }
    if 16384 <= n < 2097152 {
        lemma_vint_encoding_first_byte(n0 / 128);
        lemma_vint_encoding_first_byte(n0 / 128 / 128);
        assert(128 <= n0 / 128);
        assert(n0 / 128 / 128 < 128);
    }
    if n == u64::MAX {
        let n1 = n0 / 128;
        let n2 = n1 / 128;
        let n3 = n2 / 128;
        let n4 = n3 / 128;
        let n5 = n4 / 128;
        let n6 = n5 / 128;
        let n7 = n6 / 128;
        let n8 = n7 / 128;
        let n9 = n8 / 128;
        lemma_vint_encoding_first_byte(n1);
        lemma_vint_encoding_first_byte(n2);
        lemma_vint_encoding_first_byte(n3);
        lemma_vint_encoding_first_byte(n4);
        lemma_vint_encoding_first_byte(n5);
        lemma_vint_encoding_first_byte(n6);
        lemma_vint_encoding_first_byte(n7);
        lemma_vint_encoding_first_byte(n8);
        lemma_vint_encoding_first_byte(n9);
        assert(n9 < 128);
        assert(n8 >= 128);
        assert(spec_vint_encoding(n9).len() == 1);
        assert(spec_vint_encoding(n0).len() == 10);
    }
}

/// The encoding of a 64-bit value takes at most ten bytes.
pub proof fn lemma_vint_encoding_len_upper(n: nat)
    requires
        n <= u64::MAX,
    ensures
        spec_vint_encoding(n).len() <= 10,
{
    let n0 = n;
    let n1 = n0 / 128;
    let n2 = n1 / 128;
    let n3 = n2 / 128;
    let n4 = n3 / 128;
    let n5 = n4 / 128;
    let n6 = n5 / 128;
    let n7 = n6 / 128;
    let n8 = n7 / 128;
    let n9 = n8 / 128;
    lemma_vint_encoding_first_byte(n0);
    lemma_vint_encoding_first_byte(n1);
    lemma_vint_encoding_first_byte(n2);
    lemma_vint_encoding_first_byte(n3);
    lemma_vint_encoding_first_byte(n4);
    lemma_vint_encoding_first_byte(n5);
    lemma_vint_encoding_first_byte(n6);
    lemma_vint_encoding_first_byte(n7);
    lemma_vint_encoding_first_byte(n8);
    lemma_vint_encoding_first_byte(n9);
    assert(n9 < 128);
    assert(spec_vint_encoding(n9).len() == 1);
}

/// Append the encoding of `n` to `writer`, least-significant chunk first.
fn vint_encode_into(n: u64, writer: &mut Vec<u8>)
    ensures
        final(writer)@ == old(writer)@ + spec_vint_encoding(n as nat),
    decreases n,
{
    if n < 128 {
        writer.push(n as u8);
        proof {
            assert(final(writer)@ =~= old(writer)@ + spec_vint_encoding(n as nat));
        }
    } else {
        writer.push((128 + n % 128) as u8);
        vint_encode_into(n / 128, writer);
        proof {
            assert(final(writer)@ =~= old(writer)@ + spec_vint_encoding(n as nat));
        }
    }
}

/// Decode one variable-length integer starting at `pos`, returning the value
/// and the position just past its last byte. Only the minimal encoding the
/// encoder produces is accepted.
fn vint_decode_from(data: &[u8], pos: usize) -> (res: Result<(u64, usize), DeserializeError>)
    requires
        pos <= data@.len(),
    ensures
        (match res {
            Ok(p) => {
                &&& pos < p.1 <= data@.len()
                &&& spec_vint_encoding(p.0 as nat) == data@.subrange(pos as int, p.1 as int)
            },
            Err(e) => {
                &&& forall|n: u64|
                    !(#[trigger] spec_vint_encoding(n as nat)).is_prefix_of(data@.skip(pos as int))
                &&& e == spec_vint_decode_error(data@.skip(pos as int))
            },
        }),
    decreases data@.len() - pos,
{
    let rest_bytes = Ghost(data@.skip(pos as int));
    if pos >= data.len() {
        proof {
            assert forall|n: u64|
                !(#[trigger] spec_vint_encoding(n as nat)).is_prefix_of(rest_bytes@) by {
                lemma_vint_encoding_first_byte(n as nat);
            }
            assert(rest_bytes@.len() == 0);
            assert(spec_vint_decode_error(rest_bytes@) == DeserializeError::UnexpectedEnd);
        }
        return Err(DeserializeError::UnexpectedEnd);
    }
    let b = data[pos];
    proof {
        assert(rest_bytes@[0] == b);
    }
    if b < 128 {
        proof {
            assert(spec_vint_encoding(b as nat) =~= data@.subrange(pos as int, pos + 1));
        }
        return Ok((b as u64, pos + 1));
    }
    let payload: u64 = (b - 128) as u64;
    match vint_decode_from(data, pos + 1) {
        Err(e) => {
            proof {
                let r0 = rest_bytes@;
                let r1 = data@.skip(pos + 1);
                assert(spec_vint_decode_error(r0) == spec_vint_decode_error(r1)) by {
                    if forall|i: int| 0 <= i < r1.len() ==> (#[trigger] r1[i]) >= 128 {
                        assert forall|i: int| 0 <= i < r0.len() implies (#[trigger] r0[i])
                            >= 128 by {
                            if i == 0 {
                                assert(r0[0] == b);
                            } else {
                                assert(r0[i] == r1[i - 1]);
                                assert(r1[i - 1] >= 128);
                            }
                        }
                    } else {
                        let j = choose|j: int| 0 <= j < r1.len() && r1[j] < 128;
                        assert(r0[j + 1] == r1[j]);
                        assert(!(forall|i: int|
                            0 <= i < r0.len() ==> (#[trigger] r0[i]) >= 128));
                    }
                }
                assert forall|n: u64|
                    !(#[trigger] spec_vint_encoding(n as nat)).is_prefix_of(rest_bytes@) by {
                    let m = n as nat;
                    lemma_vint_encoding_first_byte(m);
                    if spec_vint_encoding(m).is_prefix_of(rest_bytes@) {
                        assert(spec_vint_encoding(m)[0] == b);
                        assert(m >= 128);
                        let tail = spec_vint_encoding(m / 128);
                        assert(tail.is_prefix_of(data@.skip(pos + 1))) by {
                            lemma_vint_encoding_first_byte(m / 128);
                            assert forall|i: int| 0 <= i < tail.len() implies tail[i]
                                == data@.skip(pos + 1)[i] by {
                                assert(spec_vint_encoding(m)[i + 1] == rest_bytes@[i + 1]);
                            }
                            assert(tail =~= data@.skip(pos + 1).subrange(0, tail.len() as int));
                        }
                        assert((m / 128) as u64 as nat == m / 128);
                        assert(false);
                    }
                }
            }
            Err(e)
        },
        Ok((rest, end)) => {
            let ghost tail_enc = spec_vint_encoding(rest as nat);
            if rest == 0 || rest > (u64::MAX - payload) / 128 {
                proof {
                    assert forall|n: u64|
                        !(#[trigger] spec_vint_encoding(n as nat)).is_prefix_of(rest_bytes@) by {
                        let m = n as nat;
                        lemma_vint_encoding_first_byte(m);
                        if spec_vint_encoding(m).is_prefix_of(rest_bytes@) {
                            assert(spec_vint_encoding(m)[0] == b);
                            assert(m >= 128);
                            let tail = spec_vint_encoding(m / 128);
                            assert(tail.is_prefix_of(data@.skip(pos + 1))) by {
                                lemma_vint_encoding_first_byte(m / 128);
                                assert forall|i: int| 0 <= i < tail.len() implies tail[i]
                                    == data@.skip(pos + 1)[i] by {
                                    assert(spec_vint_encoding(m)[i + 1] == rest_bytes@[i + 1]);
                                }
                                assert(tail =~= data@.skip(pos + 1).subrange(
                                    0,
                                    tail.len() as int,
                                ));
                            }
                            assert(tail_enc.is_prefix_of(data@.skip(pos + 1))) by {
                                assert(tail_enc =~= data@.subrange(pos + 1, end as int));
                                assert(tail_enc =~= data@.skip(pos + 1).subrange(
                                    0,
                                    tail_enc.len() as int,
                                ));
                            }
                            if tail.len() <= tail_enc.len() {
                                assert(tail.is_prefix_of(tail_enc)) by {
                                    assert(tail =~= tail_enc.subrange(0, tail.len() as int));
                                }
                            } else {
                                assert(tail_enc.is_prefix_of(tail)) by {
                                    assert(tail_enc =~= tail.subrange(0, tail_enc.len() as int));
                                }
                            }
                            lemma_vint_prefix_free(m / 128, rest as nat);
                            lemma_vint_prefix_free(rest as nat, m / 128);
                            assert(m / 128 == rest as nat);
                            if rest == 0 {
                                assert(m < 128);
                                assert(false);
                            } else {
                                assert(m == 128 * (rest as nat) + (payload as nat)) by {
                                    lemma_fundamental_div_mod(m as int, 128);
                                }
                                assert(128 * (rest as int) <= u64::MAX - payload ==> false);
                                let q = ((u64::MAX - payload) / 128) as int;
                                assert(128 * q <= u64::MAX - payload) by {
                                    lemma_fundamental_div_mod((u64::MAX - payload) as int, 128);
                                }
                                assert(rest as int > q);
                                assert(128 * (rest as int) >= 128 * (q + 1)) by {
                                    lemma_mul_inequality(q + 1, rest as int, 128);
                                }
                                assert(128 * (q + 1) == 128 * q + 128);
                                assert(m > u64::MAX);
                                assert(false);
                            }
                        }
                    }
                    lemma_vint_encoding_last_byte(rest as nat);
                    lemma_vint_encoding_first_byte(rest as nat);
                    assert(spec_vint_decode_error(rest_bytes@) == DeserializeError::InvalidVInt)
                        by {
                        assert(spec_vint_encoding(rest as nat) == data@.subrange(
                            pos + 1,
                            end as int,
                        ));
                        assert(spec_vint_encoding(rest as nat).last() == data@[end - 1]);
                        assert(rest_bytes@[end - 1 - pos] == data@[end - 1]);
                        assert(rest_bytes@[end - 1 - pos] < 128);
                        assert(!(forall|i: int|
                            0 <= i < rest_bytes@.len() ==> (#[trigger] rest_bytes@[i]) >= 128));
                    }
                }
                Err(DeserializeError::InvalidVInt)
            } else {
                proof {
                    let q = ((u64::MAX - payload) / 128) as int;
                    assert(128 * q <= u64::MAX - payload) by {
                        lemma_fundamental_div_mod((u64::MAX - payload) as int, 128);
                    }
                    assert(128 * (rest as int) <= 128 * q) by {
                        lemma_mul_inequality(rest as int, q, 128);
                    }
                }
                let value: u64 = payload + 128 * rest;
                proof {
                    lemma_fundamental_div_mod_converse(
                        value as int,
                        128,
                        rest as int,
                        payload as int,
                    );
                    assert(value >= 128) by {
                        assert(128 * (rest as int) >= 128) by {
                            lemma_mul_inequality(1, rest as int, 128);
                        }
                    }
                    assert(spec_vint_encoding(value as nat) == seq![b] + tail_enc) by {
                        lemma_vint_encoding_first_byte(value as nat);
                        assert((value as nat) % 128 == payload as nat);
                        assert((value as nat) / 128 == rest as nat);
                    }
                    assert(seq![b] + tail_enc =~= data@.subrange(pos as int, end as int));
                }
                Ok((value, end))
            }
        },
    }
}

impl VInt {
    /// The wrapped value.
    pub fn val(&self) -> (v: u64)
        ensures
            v == self.0,
    {
        self.0
    }
}

impl BinarySerializable for VInt {
    open spec fn encoding(self) -> Seq<u8> {
        spec_vint_encoding(self.0 as nat)
    }

    open spec fn decode_error(rest: Seq<u8>) -> DeserializeError {
        spec_vint_decode_error(rest)
    }

    fn serialize(&self, writer: &mut Vec<u8>) {
        vint_encode_into(self.0, writer);
        proof {
            assert(writer@ =~= old(writer)@ + self.encoding());
        }
    }

    fn deserialize(data: &[u8], pos: &mut usize) -> (res: Result<Self, DeserializeError>) {
        match vint_decode_from(data, *pos) {
            Ok((value, end)) => {
                *pos = end;
                Ok(VInt(value))
            },
            Err(e) => {
                proof {
                    assert forall|v: VInt|
                        !(#[trigger] v.encoding()).is_prefix_of(data@.skip(*pos as int)) by {
                        assert(v.encoding() == spec_vint_encoding(v.0 as nat));
                    }
                }
                Err(e)
            },
        }
    }

    proof fn lemma_prefix_free(a: Self, b: Self) {
        lemma_vint_prefix_free(a.0 as nat, b.0 as nat);
    }

    proof fn lemma_injective(a: Self, b: Self) {
        if a.encoding() == b.encoding() {
            lemma_vint_prefix_free(a.0 as nat, b.0 as nat);
            assert(a.encoding().is_prefix_of(b.encoding()));
        }
    }
}

} // verus!
