//! Binary serialization primitives.
//!
//! Every on-disk structure of the engine is built from these encoders: the
//! fixed-width little-endian integers, booleans, UTF-8 text, pairs and
//! element-counted sequences. Each serializable type pins down its exact wire
//! bytes through the spec function [`BinarySerializable::encoding`], and the
//! executable `serialize`/`deserialize` functions are verified against it.

use vstd::prelude::*;
use vstd::bytes::*;
use vstd::utf8::{
    valid_utf8, decode_utf8, encode_utf8, encode_utf8_valid_utf8, encode_utf8_decode_utf8,
    decode_utf8_encode_utf8,
};
use crate::vint::{
    VInt, spec_vint_encoding, lemma_vint_prefix_free, spec_vint_decode_error, spec_vint_parses,
    spec_vint_value, lemma_vint_value_unique,
};

verus! {

/// Error reported when a byte stream does not hold a structurally valid
/// encoding of the requested type.
#[derive(Clone, Copy, Debug, PartialEq, Eq, Structural)]
pub enum DeserializeError {
    /// The input ended before a complete encoding was read.
    UnexpectedEnd,
    /// A boolean byte was neither 0 nor 1; carries the offending byte.
    InvalidBool(u8),
    /// A text payload was not valid UTF-8.
    InvalidUtf8,
    /// A variable-length integer was malformed: overlong, non-minimal, or
    /// exceeding 64 bits.
    InvalidVInt,
    /// A composite-file footer was inconsistent with the file's length.
    CorruptedFooter,
}

/// Capability for a simple binary serialization with an exactly specified
/// byte-level encoding.
pub trait BinarySerializable: Sized + DeepView {
    /// The exact byte sequence this value serializes to.
    spec fn encoding(self) -> Seq<u8>;

    /// The error `deserialize` reports when the stream does not begin with
    /// a value's encoding. Where no error can arise at `rest`, the value of
    /// this function is immaterial.
    spec fn decode_error(rest: Seq<u8>) -> DeserializeError;

    /// Append this value's encoding to `writer`.
    fn serialize(&self, writer: &mut Vec<u8>)
        ensures
            final(writer)@ == old(writer)@ + self.encoding(),
    ;

    /// Read one value from `data` starting at `*pos`.
    ///
    /// On success the cursor advances past exactly the bytes of the returned
    /// value's encoding; on failure the cursor is unchanged, no value's
    /// encoding starts at `*pos`, and the error is the kind `decode_error`
    /// names for the malformation found there.
    fn deserialize(data: &[u8], pos: &mut usize) -> (res: Result<Self, DeserializeError>)
        requires
            *old(pos) <= data@.len(),
        ensures
            (match res {
                Ok(v) => {
                    &&& *old(pos) + v.encoding().len() == *final(pos)
                    &&& *final(pos) <= data@.len()
                    &&& v.encoding() == data@.subrange(*old(pos) as int, *final(pos) as int)
                },
                Err(e) => {
                    &&& *final(pos) == *old(pos)
                    &&& forall|v: Self|
                        !(#[trigger] v.encoding()).is_prefix_of(data@.skip(*old(pos) as int))
                    &&& e == Self::decode_error(data@.skip(*old(pos) as int))
                },
            }),
    ;

    /// No value's encoding is a strict prefix of another's: when one encoding
    /// starts with another, the two encodings coincide.
    proof fn lemma_prefix_free(a: Self, b: Self)
        ensures
            a.encoding().is_prefix_of(b.encoding()) ==> a.encoding() == b.encoding(),
    ;

    /// Two values with the same encoding hold the same data.
    proof fn lemma_injective(a: Self, b: Self)
        ensures
            a.encoding() == b.encoding() ==> a.deep_view() == b.deep_view(),
    ;

    /// Number of bytes this value serializes to.
    fn num_bytes(&self) -> (n: u64)
        ensures
            n == self.encoding().len(),
    {
        let mut counter: Vec<u8> = Vec::new();
        self.serialize(&mut counter);
        counter.len() as u64
    }
}

/// Marks a [`BinarySerializable`] type whose encoding always occupies the
/// same number of bytes.
pub trait FixedSize: BinarySerializable {
    /// The constant encoded size, in bytes.
    spec fn spec_size_in_bytes() -> nat;

    /// The constant encoded size, in bytes.
    fn size_in_bytes() -> (n: usize)
        requires
            Self::spec_size_in_bytes() <= usize::MAX,
        ensures
            n == Self::spec_size_in_bytes(),
    ;

    /// Every value of the type encodes to exactly the declared size.
    proof fn lemma_encoding_len(x: Self)
        ensures
            x.encoding().len() == Self::spec_size_in_bytes(),
    ;
}

impl BinarySerializable for () {
    open spec fn encoding(self) -> Seq<u8> {
        Seq::empty()
    }

    open spec fn decode_error(rest: Seq<u8>) -> DeserializeError {
        DeserializeError::UnexpectedEnd
    }

    fn serialize(&self, writer: &mut Vec<u8>) {
        proof {
            assert(writer@ =~= writer@ + Seq::<u8>::empty());
        }
    }

    fn deserialize(data: &[u8], pos: &mut usize) -> (res: Result<Self, DeserializeError>) {
        proof {
            assert(().encoding() =~= data@.subrange(*pos as int, *pos as int));
        }
        Ok(())
    }

    proof fn lemma_prefix_free(a: Self, b: Self) {
    }

    proof fn lemma_injective(a: Self, b: Self) {
    }
}

impl FixedSize for () {
    open spec fn spec_size_in_bytes() -> nat {
        0
    }

    fn size_in_bytes() -> usize {
        0
    }

    proof fn lemma_encoding_len(x: Self) {
    }
}

impl BinarySerializable for u8 {
    open spec fn encoding(self) -> Seq<u8> {
        seq![self]
    }

    open spec fn decode_error(rest: Seq<u8>) -> DeserializeError {
        DeserializeError::UnexpectedEnd
    }

    fn serialize(&self, writer: &mut Vec<u8>) {
        writer.push(*self);
        proof {
            assert(writer@ =~= old(writer)@ + seq![*self]);
        }
    }

    fn deserialize(data: &[u8], pos: &mut usize) -> (res: Result<Self, DeserializeError>) {
        if data.len() - *pos < 1 {
            return Err(DeserializeError::UnexpectedEnd);
        }
        let v = data[*pos];
        *pos = *pos + 1;
        proof {
            assert(v.encoding() =~= data@.subrange(*pos - 1, *pos as int));
        }
        Ok(v)
    }

    proof fn lemma_prefix_free(a: Self, b: Self) {
        if a.encoding().is_prefix_of(b.encoding()) {
            assert(a.encoding() =~= b.encoding());
        }
    }

    proof fn lemma_injective(a: Self, b: Self) {
        if a.encoding() == b.encoding() {
            assert(a.encoding()[0] == b.encoding()[0]);
        }
    }
}

impl FixedSize for u8 {
    open spec fn spec_size_in_bytes() -> nat {
        1
    }

    fn size_in_bytes() -> usize {
        1
    }

    proof fn lemma_encoding_len(x: Self) {
    }
}

impl BinarySerializable for bool {
    open spec fn encoding(self) -> Seq<u8> {
        seq![if self { 1u8 } else { 0u8 }]
    }

    open spec fn decode_error(rest: Seq<u8>) -> DeserializeError {
        if rest.len() == 0 {
            DeserializeError::UnexpectedEnd
        } else {
            DeserializeError::InvalidBool(rest[0])
        }
    }

    fn serialize(&self, writer: &mut Vec<u8>) {
        writer.push(if *self { 1u8 } else { 0u8 });
        proof {
            assert(writer@ =~= old(writer)@ + self.encoding());
        }
    }

    fn deserialize(data: &[u8], pos: &mut usize) -> (res: Result<Self, DeserializeError>) {
        if data.len() - *pos < 1 {
            return Err(DeserializeError::UnexpectedEnd);
        }
        let b = data[*pos];
        if b == 0 {
            *pos = *pos + 1;
            proof {
                assert(false.encoding() =~= data@.subrange(*pos - 1, *pos as int));
            }
            Ok(false)
        } else if b == 1 {
            *pos = *pos + 1;
            proof {
                assert(true.encoding() =~= data@.subrange(*pos - 1, *pos as int));
            }
            Ok(true)
        } else {
            proof {
                let rest = data@.skip(*pos as int);
                assert(rest[0] == b);
                assert forall|v: bool| !(#[trigger] v.encoding()).is_prefix_of(rest) by {
                    if v.encoding().is_prefix_of(rest) {
                        assert(v.encoding()[0] == rest.subrange(0, 1)[0]);
                    }
                }
            }
            Err(DeserializeError::InvalidBool(b))
        }
    }

    proof fn lemma_prefix_free(a: Self, b: Self) {
        if a.encoding().is_prefix_of(b.encoding()) {
            assert(a.encoding() =~= b.encoding());
        }
    }

    proof fn lemma_injective(a: Self, b: Self) {
        if a.encoding() == b.encoding() {
            assert(a.encoding()[0] == b.encoding()[0]);
        }
    }
}

impl FixedSize for bool {
    open spec fn spec_size_in_bytes() -> nat {
        1
    }

    fn size_in_bytes() -> usize {
        1
    }

    proof fn lemma_encoding_len(x: Self) {
    }
}

impl BinarySerializable for u16 {
    open spec fn encoding(self) -> Seq<u8> {
        spec_u16_to_le_bytes(self)
    }

    open spec fn decode_error(rest: Seq<u8>) -> DeserializeError {
        DeserializeError::UnexpectedEnd
    }

    fn serialize(&self, writer: &mut Vec<u8>) {
        let mut bytes = u16_to_le_bytes(*self);
        writer.append(&mut bytes);
        proof {
            assert(writer@ =~= old(writer)@ + self.encoding());
        }
    }

    fn deserialize(data: &[u8], pos: &mut usize) -> (res: Result<Self, DeserializeError>) {
        proof {
            lemma_auto_spec_u16_to_from_le_bytes();
        }
        if data.len() - *pos < 2 {
            return Err(DeserializeError::UnexpectedEnd);
        }
        let x = vstd::slice::slice_subrange(data, *pos, *pos + 2);
        let v = u16_from_le_bytes(x);
        *pos = *pos + 2;
        Ok(v)
    }

    proof fn lemma_prefix_free(a: Self, b: Self) {
        lemma_auto_spec_u16_to_from_le_bytes();
        if a.encoding().is_prefix_of(b.encoding()) {
            assert(a.encoding() =~= b.encoding());
        }
    }

    proof fn lemma_injective(a: Self, b: Self) {
        lemma_auto_spec_u16_to_from_le_bytes();
        if a.encoding() == b.encoding() {
            assert(spec_u16_to_le_bytes(a).len() == 2);
            assert(spec_u16_to_le_bytes(b).len() == 2);
            assert(spec_u16_from_le_bytes(spec_u16_to_le_bytes(a)) == a);
            assert(spec_u16_from_le_bytes(spec_u16_to_le_bytes(b)) == b);
        }
    }
}

impl FixedSize for u16 {
    open spec fn spec_size_in_bytes() -> nat {
        2
    }

    fn size_in_bytes() -> usize {
        2
    }

    proof fn lemma_encoding_len(x: Self) {
        lemma_auto_spec_u16_to_from_le_bytes();
        assert(spec_u16_to_le_bytes(x).len() == 2);
    }
}

impl BinarySerializable for u32 {
    open spec fn encoding(self) -> Seq<u8> {
        spec_u32_to_le_bytes(self)
    }

    open spec fn decode_error(rest: Seq<u8>) -> DeserializeError {
        DeserializeError::UnexpectedEnd
    }

    fn serialize(&self, writer: &mut Vec<u8>) {
        let mut bytes = u32_to_le_bytes(*self);
        writer.append(&mut bytes);
        proof {
            assert(writer@ =~= old(writer)@ + self.encoding());
        }
    }

    fn deserialize(data: &[u8], pos: &mut usize) -> (res: Result<Self, DeserializeError>) {
        proof {
            lemma_auto_spec_u32_to_from_le_bytes();
        }
        if data.len() - *pos < 4 {
            assert forall|v: u32|
                !(#[trigger] v.encoding()).is_prefix_of(data@.skip(*pos as int)) by {
            }
            return Err(DeserializeError::UnexpectedEnd);
        }
        let x = vstd::slice::slice_subrange(data, *pos, *pos + 4);
        let v = u32_from_le_bytes(x);
        *pos = *pos + 4;
        Ok(v)
    }

    proof fn lemma_prefix_free(a: Self, b: Self) {
        lemma_auto_spec_u32_to_from_le_bytes();
        if a.encoding().is_prefix_of(b.encoding()) {
            assert(a.encoding() =~= b.encoding());
        }
    }

    proof fn lemma_injective(a: Self, b: Self) {
        lemma_auto_spec_u32_to_from_le_bytes();
        if a.encoding() == b.encoding() {
            assert(spec_u32_to_le_bytes(a).len() == 4);
            assert(spec_u32_to_le_bytes(b).len() == 4);
            assert(spec_u32_from_le_bytes(spec_u32_to_le_bytes(a)) == a);
            assert(spec_u32_from_le_bytes(spec_u32_to_le_bytes(b)) == b);
        }
    }
}

impl FixedSize for u32 {
    open spec fn spec_size_in_bytes() -> nat {
        4
    }

    fn size_in_bytes() -> usize {
        4
    }

    proof fn lemma_encoding_len(x: Self) {
        lemma_auto_spec_u32_to_from_le_bytes();
    }
}

impl BinarySerializable for u64 {
    open spec fn encoding(self) -> Seq<u8> {
        spec_u64_to_le_bytes(self)
    }

    open spec fn decode_error(rest: Seq<u8>) -> DeserializeError {
        DeserializeError::UnexpectedEnd
    }

    fn serialize(&self, writer: &mut Vec<u8>) {
        let mut bytes = u64_to_le_bytes(*self);
        writer.append(&mut bytes);
        proof {
            assert(writer@ =~= old(writer)@ + self.encoding());
        }
    }

    fn deserialize(data: &[u8], pos: &mut usize) -> (res: Result<Self, DeserializeError>) {
        proof {
            lemma_auto_spec_u64_to_from_le_bytes();
        }
        if data.len() - *pos < 8 {
            return Err(DeserializeError::UnexpectedEnd);
        }
        let x = vstd::slice::slice_subrange(data, *pos, *pos + 8);
        let v = u64_from_le_bytes(x);
        *pos = *pos + 8;
        Ok(v)
    }

    proof fn lemma_prefix_free(a: Self, b: Self) {
        lemma_auto_spec_u64_to_from_le_bytes();
        if a.encoding().is_prefix_of(b.encoding()) {
            assert(a.encoding() =~= b.encoding());
        }
    }

    proof fn lemma_injective(a: Self, b: Self) {
        lemma_auto_spec_u64_to_from_le_bytes();
        if a.encoding() == b.encoding() {
            assert(spec_u64_to_le_bytes(a).len() == 8);
            assert(spec_u64_to_le_bytes(b).len() == 8);
            assert(spec_u64_from_le_bytes(spec_u64_to_le_bytes(a)) == a);
            assert(spec_u64_from_le_bytes(spec_u64_to_le_bytes(b)) == b);
        }
    }
}

impl FixedSize for u64 {
    open spec fn spec_size_in_bytes() -> nat {
        8
    }

    fn size_in_bytes() -> usize {
        8
    }

    proof fn lemma_encoding_len(x: Self) {
        lemma_auto_spec_u64_to_from_le_bytes();
        assert(spec_u64_to_le_bytes(x).len() == 8);
    }
}

impl BinarySerializable for u128 {
    open spec fn encoding(self) -> Seq<u8> {
        spec_u128_to_le_bytes(self)
    }

    open spec fn decode_error(rest: Seq<u8>) -> DeserializeError {
        DeserializeError::UnexpectedEnd
    }

    fn serialize(&self, writer: &mut Vec<u8>) {
        let mut bytes = u128_to_le_bytes(*self);
        writer.append(&mut bytes);
        proof {
            assert(writer@ =~= old(writer)@ + self.encoding());
        }
    }

    fn deserialize(data: &[u8], pos: &mut usize) -> (res: Result<Self, DeserializeError>) {
        proof {
            lemma_auto_spec_u128_to_from_le_bytes();
        }
        if data.len() - *pos < 16 {
            return Err(DeserializeError::UnexpectedEnd);
        }
        let x = vstd::slice::slice_subrange(data, *pos, *pos + 16);
        let v = u128_from_le_bytes(x);
        *pos = *pos + 16;
        Ok(v)
    }

    proof fn lemma_prefix_free(a: Self, b: Self) {
        lemma_auto_spec_u128_to_from_le_bytes();
        if a.encoding().is_prefix_of(b.encoding()) {
            assert(a.encoding() =~= b.encoding());
        }
    }

    proof fn lemma_injective(a: Self, b: Self) {
        lemma_auto_spec_u128_to_from_le_bytes();
        if a.encoding() == b.encoding() {
            assert(spec_u128_to_le_bytes(a).len() == 16);
            assert(spec_u128_to_le_bytes(b).len() == 16);
            assert(spec_u128_from_le_bytes(spec_u128_to_le_bytes(a)) == a);
            assert(spec_u128_from_le_bytes(spec_u128_to_le_bytes(b)) == b);
        }
    }
}

impl FixedSize for u128 {
    open spec fn spec_size_in_bytes() -> nat {
        16
    }

    fn size_in_bytes() -> usize {
        16
    }

    proof fn lemma_encoding_len(x: Self) {
        lemma_auto_spec_u128_to_from_le_bytes();
        assert(spec_u128_to_le_bytes(x).len() == 16);
    }
}

impl BinarySerializable for i64 {
    open spec fn encoding(self) -> Seq<u8> {
        spec_u64_to_le_bytes(self as u64)
    }

    open spec fn decode_error(rest: Seq<u8>) -> DeserializeError {
        DeserializeError::UnexpectedEnd
    }

    fn serialize(&self, writer: &mut Vec<u8>) {
        let mut bytes = u64_to_le_bytes(*self as u64);
        writer.append(&mut bytes);
        proof {
            assert(writer@ =~= old(writer)@ + self.encoding());
        }
    }

    fn deserialize(data: &[u8], pos: &mut usize) -> (res: Result<Self, DeserializeError>) {
        proof {
            lemma_auto_spec_u64_to_from_le_bytes();
        }
        if data.len() - *pos < 8 {
            return Err(DeserializeError::UnexpectedEnd);
        }
        let x = vstd::slice::slice_subrange(data, *pos, *pos + 8);
        let u = u64_from_le_bytes(x);
        let v = u as i64;
        *pos = *pos + 8;
        proof {
            assert((u as i64) as u64 == u) by (bit_vector);
        }
        Ok(v)
    }

    proof fn lemma_prefix_free(a: Self, b: Self) {
        lemma_auto_spec_u64_to_from_le_bytes();
        if a.encoding().is_prefix_of(b.encoding()) {
            assert(a.encoding() =~= b.encoding());
        }
    }

    proof fn lemma_injective(a: Self, b: Self) {
        lemma_auto_spec_u64_to_from_le_bytes();
        if a.encoding() == b.encoding() {
            let ua = a as u64;
            let ub = b as u64;
            assert(spec_u64_to_le_bytes(ua).len() == 8);
            assert(spec_u64_to_le_bytes(ub).len() == 8);
            assert(spec_u64_from_le_bytes(spec_u64_to_le_bytes(ua)) == ua);
            assert(spec_u64_from_le_bytes(spec_u64_to_le_bytes(ub)) == ub);
            assert((a as u64) == (b as u64) ==> a == b) by (bit_vector);
        }
    }
}

impl FixedSize for i64 {
    open spec fn spec_size_in_bytes() -> nat {
        8
    }

    fn size_in_bytes() -> usize {
        8
    }

    proof fn lemma_encoding_len(x: Self) {
        lemma_auto_spec_u64_to_from_le_bytes();
        assert(spec_u64_to_le_bytes(x as u64).len() == 8);
    }
}

/// Whether some value's encoding begins the stream.
pub open spec fn spec_parses<T: BinarySerializable>(rest: Seq<u8>) -> bool {
    exists|v: T| (#[trigger] v.encoding()).is_prefix_of(rest)
}

/// The length of the encoding that begins the stream.
pub open spec fn spec_parsed_len<T: BinarySerializable>(rest: Seq<u8>) -> int {
    (choose|v: T| (#[trigger] v.encoding()).is_prefix_of(rest)).encoding().len() as int
}

/// Only one encoding can begin a stream, so its length is pinned by any
/// witness.
pub proof fn lemma_parsed_len<T: BinarySerializable>(rest: Seq<u8>, t: T)
    requires
        t.encoding().is_prefix_of(rest),
    ensures
        spec_parses::<T>(rest),
        spec_parsed_len::<T>(rest) == t.encoding().len(),
{
    assert(spec_parses::<T>(rest));
    let w = choose|v: T| (#[trigger] v.encoding()).is_prefix_of(rest);
    assert(w.encoding().is_prefix_of(rest));
    if w.encoding().len() <= t.encoding().len() {
        lemma_common_prefixes(w.encoding(), t.encoding(), rest);
        T::lemma_prefix_free(w, t);
    } else {
        lemma_common_prefixes(t.encoding(), w.encoding(), rest);
        T::lemma_prefix_free(t, w);
    }
}

/// The error the element decoder draws when reading `count` further
/// elements off `rest`: the first element that does not parse names it.
pub open spec fn spec_seq_decode_error<T: BinarySerializable>(
    rest: Seq<u8>,
    count: nat,
) -> DeserializeError
    decreases count,
{
    if count == 0 {
        DeserializeError::UnexpectedEnd
    } else if !spec_parses::<T>(rest) {
        T::decode_error(rest)
    } else {
        spec_seq_decode_error::<T>(rest.skip(spec_parsed_len::<T>(rest)), (count - 1) as nat)
    }
}

/// Of two prefixes of the same sequence, the shorter is a prefix of the
/// longer.
pub proof fn lemma_common_prefixes(a: Seq<u8>, b: Seq<u8>, s: Seq<u8>)
    requires
        a.is_prefix_of(s),
        b.is_prefix_of(s),
        a.len() <= b.len(),
    ensures
        a.is_prefix_of(b),
{
    assert(a =~= b.subrange(0, a.len() as int));
}

/// Round-trip law: a value deserialized from a byte stream that begins with
/// the encoding of `x` holds exactly the data of `x`.
///
/// By `deserialize`'s contract, the value `v` it returns has its encoding as
/// the consumed prefix of the stream; whenever the stream begins with
/// `x.encoding()`, the two encodings must then coincide, and with them the
/// data of the two values.
pub proof fn lemma_round_trip<T: BinarySerializable>(x: T, v: T, stream: Seq<u8>)
    requires
        x.encoding().is_prefix_of(stream),
        v.encoding().is_prefix_of(stream),
    ensures
        v.encoding() == x.encoding(),
        v.deep_view() == x.deep_view(),
{
    if v.encoding().len() <= x.encoding().len() {
        lemma_common_prefixes(v.encoding(), x.encoding(), stream);
        T::lemma_prefix_free(v, x);
    } else {
        lemma_common_prefixes(x.encoding(), v.encoding(), stream);
        T::lemma_prefix_free(x, v);
    }
    T::lemma_injective(v, x);
}

/// Relies on std's `str::from_utf8`: it succeeds exactly on the byte
/// sequences that are valid UTF-8, and then returns the string of the
/// characters those bytes spell.
#[verifier::external_body]
fn str_from_utf8(bytes: &[u8]) -> (res: Result<&str, DeserializeError>)
    ensures
        (match res {
            Ok(s) => valid_utf8(bytes@) && s@ == decode_utf8(bytes@),
            Err(e) => !valid_utf8(bytes@) && e == DeserializeError::InvalidUtf8,
        }),
{
    match core::str::from_utf8(bytes) {
        Ok(s) => Ok(s),
        Err(_) => Err(DeserializeError::InvalidUtf8),
    }
}

impl BinarySerializable for String {
    open spec fn encoding(self) -> Seq<u8> {
        spec_vint_encoding(encode_utf8(self@).len()) + encode_utf8(self@)
    }

    open spec fn decode_error(rest: Seq<u8>) -> DeserializeError {
        if !spec_vint_parses(rest) {
            spec_vint_decode_error(rest)
        } else {
            let n = spec_vint_value(rest) as int;
            let k = spec_vint_encoding(spec_vint_value(rest) as nat).len() as int;
            if rest.len() - k < n {
                DeserializeError::UnexpectedEnd
            } else if !valid_utf8(rest.subrange(k, k + n)) {
                DeserializeError::InvalidUtf8
            } else {
                DeserializeError::UnexpectedEnd
            }
        }
    }

    fn serialize(&self, writer: &mut Vec<u8>) {
        let bytes: &[u8] = self.as_str().as_bytes();
        let count = VInt(bytes.len() as u64);
        count.serialize(writer);
        writer.extend_from_slice(bytes);
        proof {
            assert(writer@ =~= old(writer)@ + self.encoding());
        }
    }

    fn deserialize(data: &[u8], pos: &mut usize) -> (res: Result<Self, DeserializeError>) {
        let start = *pos;
        let ghost rest = data@.skip(start as int);
        let count = match VInt::deserialize(data, pos) {
            Ok(v) => v,
            Err(e) => {
                proof {
                    vstd::slice::axiom_spec_len(data);
                    assert forall|v: String| !(#[trigger] v.encoding()).is_prefix_of(rest) by {
                        if v.encoding().is_prefix_of(rest) {
                            let ubytes = encode_utf8(v@);
                            lemma_concat_prefix_parts(
                                spec_vint_encoding(ubytes.len()),
                                ubytes,
                                rest,
                            );
                            assert(ubytes.len() <= rest.len());
                            let c = VInt(ubytes.len() as u64);
                            assert(c.encoding().is_prefix_of(rest));
                            assert(false);
                        }
                    }
                    assert(!spec_vint_parses(rest)) by {
                        if spec_vint_parses(rest) {
                            let nn = spec_vint_value(rest);
                            assert(spec_vint_encoding(nn as nat).is_prefix_of(rest));
                            assert(VInt(nn).encoding().is_prefix_of(rest));
                        }
                    }
                }
                return Err(e);
            },
        };
        let ghost mid = *pos;
        let n64 = count.val();
        if n64 > (data.len() - *pos) as u64 {
            proof {
                vstd::slice::axiom_spec_len(data);
                assert forall|v: String| !(#[trigger] v.encoding()).is_prefix_of(rest) by {
                    if v.encoding().is_prefix_of(rest) {
                        let ubytes = encode_utf8(v@);
                        lemma_concat_prefix_parts(spec_vint_encoding(ubytes.len()), ubytes, rest);
                        assert(count.encoding().is_prefix_of(rest)) by {
                            assert(count.encoding() =~= rest.subrange(
                                0,
                                count.encoding().len() as int,
                            ));
                        }
                        if spec_vint_encoding(ubytes.len()).len() <= count.encoding().len() {
                            lemma_common_prefixes(
                                spec_vint_encoding(ubytes.len()),
                                count.encoding(),
                                rest,
                            );
                        } else {
                            lemma_common_prefixes(
                                count.encoding(),
                                spec_vint_encoding(ubytes.len()),
                                rest,
                            );
                        }
                        lemma_vint_prefix_free(ubytes.len(), n64 as nat);
                        lemma_vint_prefix_free(n64 as nat, ubytes.len());
                        assert(ubytes.len() == n64);
                        assert(v.encoding().len() > rest.len());
                    }
                }
                assert(count.encoding().is_prefix_of(rest)) by {
                    assert(count.encoding() =~= rest.subrange(0, count.encoding().len() as int));
                }
                lemma_vint_value_unique(rest, n64);
                assert(rest.len() - count.encoding().len() < n64);
                assert(Self::decode_error(rest) == DeserializeError::UnexpectedEnd);
            }
            *pos = start;
            return Err(DeserializeError::UnexpectedEnd);
        }
        let n = n64 as usize;
        let utf8_slice = vstd::slice::slice_subrange(data, *pos, *pos + n);
        match str_from_utf8(utf8_slice) {
            Ok(s) => {
                let owned = s.to_owned();
                *pos = *pos + n;
                proof {
                    decode_utf8_encode_utf8(utf8_slice@);
                    assert(encode_utf8(owned@) == utf8_slice@);
                    assert(owned.encoding() =~= data@.subrange(start as int, *pos as int));
                }
                Ok(owned)
            },
            Err(e) => {
                proof {
                    vstd::slice::axiom_spec_len(data);
                    let taken = data@.subrange(mid as int, mid + n);
                    assert forall|v: String| !(#[trigger] v.encoding()).is_prefix_of(rest) by {
                        if v.encoding().is_prefix_of(rest) {
                            let ubytes = encode_utf8(v@);
                            lemma_concat_prefix_parts(
                                spec_vint_encoding(ubytes.len()),
                                ubytes,
                                rest,
                            );
                            assert(count.encoding().is_prefix_of(rest)) by {
                                assert(count.encoding() =~= rest.subrange(
                                    0,
                                    count.encoding().len() as int,
                                ));
                            }
                            if spec_vint_encoding(ubytes.len()).len() <= count.encoding().len() {
                                lemma_common_prefixes(
                                    spec_vint_encoding(ubytes.len()),
                                    count.encoding(),
                                    rest,
                                );
                            } else {
                                lemma_common_prefixes(
                                    count.encoding(),
                                    spec_vint_encoding(ubytes.len()),
                                    rest,
                                );
                            }
                            lemma_vint_prefix_free(ubytes.len(), n64 as nat);
                            lemma_vint_prefix_free(n64 as nat, ubytes.len());
                            assert(ubytes.len() == n);
                            assert(ubytes =~= taken) by {
                                let k = count.encoding().len() as int;
                                assert(ubytes.is_prefix_of(rest.skip(k)));
                                assert(rest.skip(k) =~= data@.skip(mid as int));
                                assert forall|i: int| 0 <= i < ubytes.len() implies ubytes[i]
                                    == taken[i] by {
                                    assert(ubytes[i] == data@.skip(mid as int).subrange(
                                        0,
                                        ubytes.len() as int,
                                    )[i]);
                                }
                            }
                            encode_utf8_valid_utf8(v@);
                            assert(valid_utf8(taken));
                            assert(false);
                        }
                    }
                    assert(count.encoding().is_prefix_of(rest)) by {
                        assert(count.encoding() =~= rest.subrange(
                            0,
                            count.encoding().len() as int,
                        ));
                    }
                    lemma_vint_value_unique(rest, n64);
                    let k = count.encoding().len() as int;
                    assert(rest.subrange(k, k + n as int) =~= taken);
                    assert(!valid_utf8(rest.subrange(k, k + n as int)));
                    assert(rest.len() - k >= n64);
                    assert(Self::decode_error(rest) == DeserializeError::InvalidUtf8);
                }
                *pos = start;
                Err(e)
            },
        }
    }

    proof fn lemma_prefix_free(a: Self, b: Self) {
        if a.encoding().is_prefix_of(b.encoding()) {
            let s = b.encoding();
            let ua = encode_utf8(a@);
            let ub = encode_utf8(b@);
            lemma_concat_prefix_parts(spec_vint_encoding(ua.len()), ua, s);
            assert(s.is_prefix_of(s)) by {
                assert(s =~= s.subrange(0, s.len() as int));
            }
            lemma_concat_prefix_parts(spec_vint_encoding(ub.len()), ub, s);
            if spec_vint_encoding(ua.len()).len() <= spec_vint_encoding(ub.len()).len() {
                lemma_common_prefixes(spec_vint_encoding(ua.len()), spec_vint_encoding(ub.len()), s);
            } else {
                lemma_common_prefixes(spec_vint_encoding(ub.len()), spec_vint_encoding(ua.len()), s);
            }
            lemma_vint_prefix_free(ua.len(), ub.len());
            lemma_vint_prefix_free(ub.len(), ua.len());
            assert(ua.len() == ub.len());
            let k = spec_vint_encoding(ub.len()).len() as int;
            assert(ua =~= ub) by {
                assert(ub =~= s.skip(k));
                assert(ua.is_prefix_of(s.skip(k)));
                assert(ua =~= s.skip(k).subrange(0, ua.len() as int));
            }
            assert(a.encoding() =~= b.encoding());
        }
    }

    proof fn lemma_injective(a: Self, b: Self) {
        if a.encoding() == b.encoding() {
            let ua = encode_utf8(a@);
            let ub = encode_utf8(b@);
            assert(a.encoding().is_prefix_of(b.encoding())) by {
                assert(a.encoding() =~= b.encoding().subrange(0, a.encoding().len() as int));
            }
            let s = b.encoding();
            lemma_concat_prefix_parts(spec_vint_encoding(ua.len()), ua, s);
            assert(s.is_prefix_of(s)) by {
                assert(s =~= s.subrange(0, s.len() as int));
            }
            lemma_concat_prefix_parts(spec_vint_encoding(ub.len()), ub, s);
            if spec_vint_encoding(ua.len()).len() <= spec_vint_encoding(ub.len()).len() {
                lemma_common_prefixes(spec_vint_encoding(ua.len()), spec_vint_encoding(ub.len()), s);
            } else {
                lemma_common_prefixes(spec_vint_encoding(ub.len()), spec_vint_encoding(ua.len()), s);
            }
            lemma_vint_prefix_free(ua.len(), ub.len());
            lemma_vint_prefix_free(ub.len(), ua.len());
            assert(ua.len() == ub.len());
            let k = spec_vint_encoding(ub.len()).len() as int;
            assert(ua =~= ub) by {
                assert(ub =~= s.skip(k));
                assert(ua.is_prefix_of(s.skip(k)));
                assert(ua =~= s.skip(k).subrange(0, ua.len() as int));
            }
            encode_utf8_decode_utf8(a@);
            encode_utf8_decode_utf8(b@);
            assert(a@ == decode_utf8(ua));
            assert(b@ == decode_utf8(ub));
        }
    }
}

/// When a concatenation is a prefix of a stream, its first part is a prefix
/// of the stream and its second part a prefix of what follows the first.
pub proof fn lemma_concat_prefix_parts(a: Seq<u8>, b: Seq<u8>, s: Seq<u8>)
    requires
        (a + b).is_prefix_of(s),
    ensures
        a.is_prefix_of(s),
        b.is_prefix_of(s.skip(a.len() as int)),
{
    let ab = a + b;
    assert forall|i: int| 0 <= i < a.len() implies a[i] == s[i] by {
        assert(ab[i] == s.subrange(0, ab.len() as int)[i]);
    }
    assert(a =~= s.subrange(0, a.len() as int));
    assert forall|i: int| 0 <= i < b.len() implies b[i] == s.skip(a.len() as int)[i] by {
        assert(ab[a.len() + i] == s.subrange(0, ab.len() as int)[a.len() + i]);
    }
    assert(b =~= s.skip(a.len() as int).subrange(0, b.len() as int));
}

/// Concatenation of the encodings of the elements of `s`, in order.
pub open spec fn spec_seq_encoding<T: BinarySerializable>(s: Seq<T>) -> Seq<u8>
    decreases s.len(),
{
    if s.len() == 0 {
        Seq::empty()
    } else {
        s[0].encoding() + spec_seq_encoding(s.drop_first())
    }
}

/// Appending an element appends its encoding.
pub proof fn lemma_seq_encoding_snoc<T: BinarySerializable>(s: Seq<T>, x: T)
    ensures
        spec_seq_encoding(s.push(x)) == spec_seq_encoding(s) + x.encoding(),
    decreases s.len(),
{
    if s.len() == 0 {
        assert(s.push(x)[0] == x);
        assert(s.push(x).drop_first() =~= Seq::<T>::empty());
        assert(spec_seq_encoding(Seq::<T>::empty()) == Seq::<u8>::empty());
        assert(spec_seq_encoding(s.push(x)) == x.encoding() + spec_seq_encoding(
            s.push(x).drop_first(),
        ));
        assert(spec_seq_encoding(s.push(x)) =~= spec_seq_encoding(s) + x.encoding());
    } else {
        assert(s.push(x)[0] == s[0]);
        assert(s.push(x).drop_first() =~= s.drop_first().push(x));
        lemma_seq_encoding_snoc(s.drop_first(), x);
        assert(spec_seq_encoding(s.push(x)) == s[0].encoding() + spec_seq_encoding(
            s.drop_first().push(x),
        ));
        assert(spec_seq_encoding(s) == s[0].encoding() + spec_seq_encoding(s.drop_first()));
        assert(spec_seq_encoding(s.push(x)) =~= spec_seq_encoding(s) + x.encoding());
    }
}

/// A longer element sequence cannot encode to a prefix of the same stream
/// once no further element parses where the shorter sequence's encoding ends.
proof fn lemma_seq_encoding_longer_no_prefix<T: BinarySerializable>(
    parsed: Seq<T>,
    vs: Seq<T>,
    s: Seq<u8>,
)
    requires
        spec_seq_encoding(parsed).is_prefix_of(s),
        vs.len() > parsed.len(),
        forall|t: T|
            !(#[trigger] t.encoding()).is_prefix_of(
                s.skip(spec_seq_encoding(parsed).len() as int),
            ),
    ensures
        !spec_seq_encoding(vs).is_prefix_of(s),
    decreases parsed.len(),
{
    if spec_seq_encoding(vs).is_prefix_of(s) {
        lemma_concat_prefix_parts(vs[0].encoding(), spec_seq_encoding(vs.drop_first()), s);
        if parsed.len() == 0 {
            assert(s.skip(0) =~= s);
            assert(!vs[0].encoding().is_prefix_of(s));
            assert(false);
        } else {
            lemma_concat_prefix_parts(
                parsed[0].encoding(),
                spec_seq_encoding(parsed.drop_first()),
                s,
            );
            if parsed[0].encoding().len() <= vs[0].encoding().len() {
                lemma_common_prefixes(parsed[0].encoding(), vs[0].encoding(), s);
                T::lemma_prefix_free(parsed[0], vs[0]);
            } else {
                lemma_common_prefixes(vs[0].encoding(), parsed[0].encoding(), s);
                T::lemma_prefix_free(vs[0], parsed[0]);
            }
            let k = parsed[0].encoding().len() as int;
            let s2 = s.skip(k);
            assert(spec_seq_encoding(vs.drop_first()).is_prefix_of(s2));
            assert(s2.skip(spec_seq_encoding(parsed.drop_first()).len() as int) =~= s.skip(
                spec_seq_encoding(parsed).len() as int,
            ));
            lemma_seq_encoding_longer_no_prefix(parsed.drop_first(), vs.drop_first(), s2);
        }
    }
}

/// Element sequences of equal length whose encodings align hold the same
/// data element by element.
proof fn lemma_seq_encoding_equal_len<T: BinarySerializable>(a: Seq<T>, b: Seq<T>)
    requires
        a.len() == b.len(),
        spec_seq_encoding(a).is_prefix_of(spec_seq_encoding(b)),
    ensures
        spec_seq_encoding(a) == spec_seq_encoding(b),
        forall|i: int| 0 <= i < a.len() ==> a[i].deep_view() == b[i].deep_view(),
    decreases a.len(),
{
    if a.len() == 0 {
        assert(spec_seq_encoding(a) =~= spec_seq_encoding(b));
    } else {
        let s = spec_seq_encoding(b);
        assert(s.is_prefix_of(s)) by {
            assert(s =~= s.subrange(0, s.len() as int));
        }
        lemma_concat_prefix_parts(b[0].encoding(), spec_seq_encoding(b.drop_first()), s);
        assert(spec_seq_encoding(a).is_prefix_of(s));
        lemma_concat_prefix_parts(a[0].encoding(), spec_seq_encoding(a.drop_first()), s);
        if a[0].encoding().len() <= b[0].encoding().len() {
            lemma_common_prefixes(a[0].encoding(), b[0].encoding(), s);
            T::lemma_prefix_free(a[0], b[0]);
        } else {
            lemma_common_prefixes(b[0].encoding(), a[0].encoding(), s);
            T::lemma_prefix_free(b[0], a[0]);
        }
        assert(a[0].encoding() == b[0].encoding());
        T::lemma_injective(a[0], b[0]);
        let k = a[0].encoding().len() as int;
        lemma_seq_encoding_equal_len(a.drop_first(), b.drop_first());
        assert(spec_seq_encoding(a) =~= spec_seq_encoding(b));
        assert forall|i: int| 0 <= i < a.len() implies a[i].deep_view() == b[i].deep_view() by {
            if i > 0 {
                assert(a.drop_first()[i - 1].deep_view() == b.drop_first()[i - 1].deep_view());
            }
        }
    }
}

impl<T: BinarySerializable> BinarySerializable for Vec<T> {
    open spec fn encoding(self) -> Seq<u8> {
        spec_vint_encoding(self@.len()) + spec_seq_encoding(self@)
    }

    open spec fn decode_error(rest: Seq<u8>) -> DeserializeError {
        if !spec_vint_parses(rest) {
            spec_vint_decode_error(rest)
        } else {
            let n = spec_vint_value(rest);
            let k = spec_vint_encoding(n as nat).len() as int;
            if n > usize::MAX {
                DeserializeError::InvalidVInt
            } else {
                spec_seq_decode_error::<T>(rest.skip(k), n as nat)
            }
        }
    }

    fn serialize(&self, writer: &mut Vec<u8>) {
        let count = VInt(self.len() as u64);
        count.serialize(writer);
        let mut i: usize = 0;
        proof {
            assert(self@.take(0) =~= Seq::<T>::empty());
        }
        while i < self.len()
            invariant
                i <= self@.len(),
                writer@ == old(writer)@ + spec_vint_encoding(self@.len()) + spec_seq_encoding(
                    self@.take(i as int),
                ),
            decreases self@.len() - i,
        {
            self[i].serialize(writer);
            proof {
                assert(self@.take(i + 1) =~= self@.take(i as int).push(self@[i as int]));
                lemma_seq_encoding_snoc(self@.take(i as int), self@[i as int]);
                assert(writer@ =~= old(writer)@ + spec_vint_encoding(self@.len())
                    + spec_seq_encoding(self@.take(i + 1)));
            }
            i = i + 1;
        }
        proof {
            assert(self@.take(self@.len() as int) =~= self@);
            assert(writer@ =~= old(writer)@ + self.encoding());
        }
    }

    fn deserialize(data: &[u8], pos: &mut usize) -> (res: Result<Self, DeserializeError>) {
        let start = *pos;
        let ghost rest = data@.skip(start as int);
        let count = match VInt::deserialize(data, pos) {
            Ok(v) => v,
            Err(e) => {
                proof {
                    assert forall|v: Vec<T>| !(#[trigger] v.encoding()).is_prefix_of(rest) by {
                        if v.encoding().is_prefix_of(rest) {
                            vstd::std_specs::vec::axiom_spec_len(&v);
                            let c = VInt(v.len() as u64);
                            lemma_concat_prefix_parts(
                                spec_vint_encoding(v@.len()),
                                spec_seq_encoding(v@),
                                rest,
                            );
                            assert(c.encoding().is_prefix_of(rest));
                            assert(false);
                        }
                    }
                    assert(!spec_vint_parses(rest)) by {
                        if spec_vint_parses(rest) {
                            let nn = spec_vint_value(rest);
                            assert(spec_vint_encoding(nn as nat).is_prefix_of(rest));
                            assert(VInt(nn).encoding().is_prefix_of(rest));
                        }
                    }
                }
                return Err(e);
            },
        };
        let ghost mid = *pos;
        let n = count.val();
        if n > usize::MAX as u64 {
            proof {
                assert forall|v: Vec<T>| !(#[trigger] v.encoding()).is_prefix_of(rest) by {
                    if v.encoding().is_prefix_of(rest) {
                        vstd::std_specs::vec::axiom_spec_len(&v);
                        lemma_concat_prefix_parts(
                            spec_vint_encoding(v@.len()),
                            spec_seq_encoding(v@),
                            rest,
                        );
                        assert(count.encoding().is_prefix_of(rest)) by {
                            assert(count.encoding() =~= rest.subrange(
                                0,
                                count.encoding().len() as int,
                            ));
                        }
                        if spec_vint_encoding(v@.len()).len() <= count.encoding().len() {
                            lemma_common_prefixes(
                                spec_vint_encoding(v@.len()),
                                count.encoding(),
                                rest,
                            );
                        } else {
                            lemma_common_prefixes(
                                count.encoding(),
                                spec_vint_encoding(v@.len()),
                                rest,
                            );
                        }
                        lemma_vint_prefix_free(v@.len(), n as nat);
                        lemma_vint_prefix_free(n as nat, v@.len());
                        assert(false);
                    }
                }
                assert(count.encoding().is_prefix_of(rest)) by {
                    assert(count.encoding() =~= rest.subrange(0, count.encoding().len() as int));
                }
                lemma_vint_value_unique(rest, n);
                assert(Self::decode_error(rest) == DeserializeError::InvalidVInt);
            }
            *pos = start;
            return Err(DeserializeError::InvalidVInt);
        }
        let n_items = n as usize;
        let mut items: Vec<T> = Vec::new();
        let mut i: usize = 0;
        proof {
            assert(data@.subrange(mid as int, mid as int) =~= spec_seq_encoding(items@));
        }
        while i < n_items
            invariant
                i <= n_items,
                n_items == n,
                count.0 == n,
                items@.len() == i,
                start == *old(pos),
                start <= mid <= *pos <= data@.len(),
                count.encoding() == data@.subrange(start as int, mid as int),
                spec_seq_encoding(items@) == data@.subrange(mid as int, *pos as int),
                rest == data@.skip(start as int),
                spec_seq_decode_error::<T>(data@.skip(mid as int), n_items as nat)
                    == spec_seq_decode_error::<T>(data@.skip(*pos as int), (n_items - i) as nat),
            decreases n_items - i,
        {
            let ghost prev = *pos;
            match T::deserialize(data, pos) {
                Ok(item) => {
                    let ghost prev_items = items@;
                    proof {
                        lemma_seq_encoding_snoc(prev_items, item);
                    }
                    items.push(item);
                    proof {
                        assert(spec_seq_encoding(items@) =~= data@.subrange(
                            mid as int,
                            *pos as int,
                        ));
                        assert(item.encoding().is_prefix_of(data@.skip(prev as int))) by {
                            assert(item.encoding() =~= data@.skip(prev as int).subrange(
                                0,
                                item.encoding().len() as int,
                            ));
                        }
                        lemma_parsed_len::<T>(data@.skip(prev as int), item);
                        assert(data@.skip(prev as int).skip(item.encoding().len() as int)
                            =~= data@.skip(*pos as int));
                        assert(spec_seq_decode_error::<T>(
                            data@.skip(prev as int),
                            (n_items - i) as nat,
                        ) == spec_seq_decode_error::<T>(
                            data@.skip(*pos as int),
                            (n_items - i - 1) as nat,
                        ));
                    }
                    i = i + 1;
                },
                Err(e) => {
                    proof {
                        assert forall|v: Vec<T>| !(#[trigger] v.encoding()).is_prefix_of(rest) by {
                            if v.encoding().is_prefix_of(rest) {
                                vstd::std_specs::vec::axiom_spec_len(&v);
                                lemma_concat_prefix_parts(
                                    spec_vint_encoding(v@.len()),
                                    spec_seq_encoding(v@),
                                    rest,
                                );
                                assert(count.encoding().is_prefix_of(rest)) by {
                                    assert(count.encoding() =~= rest.subrange(
                                        0,
                                        count.encoding().len() as int,
                                    ));
                                }
                                if spec_vint_encoding(v@.len()).len()
                                    <= count.encoding().len() {
                                    lemma_common_prefixes(
                                        spec_vint_encoding(v@.len()),
                                        count.encoding(),
                                        rest,
                                    );
                                } else {
                                    lemma_common_prefixes(
                                        count.encoding(),
                                        spec_vint_encoding(v@.len()),
                                        rest,
                                    );
                                }
                                lemma_vint_prefix_free(v@.len(), n as nat);
                                lemma_vint_prefix_free(n as nat, v@.len());
                                assert(v@.len() == n);
                                let after_count = data@.skip(mid as int);
                                assert(rest.skip(count.encoding().len() as int)
                                    =~= after_count);
                                assert(spec_seq_encoding(v@).is_prefix_of(after_count));
                                assert(spec_seq_encoding(items@).is_prefix_of(after_count)) by {
                                    assert(spec_seq_encoding(items@) =~= after_count.subrange(
                                        0,
                                        spec_seq_encoding(items@).len() as int,
                                    ));
                                }
                                assert(after_count.skip(
                                    spec_seq_encoding(items@).len() as int,
                                ) =~= data@.skip(prev as int));
                                lemma_seq_encoding_longer_no_prefix(items@, v@, after_count);
                            }
                        }
                        assert(count.encoding().is_prefix_of(rest)) by {
                            assert(count.encoding() =~= rest.subrange(
                                0,
                                count.encoding().len() as int,
                            ));
                        }
                        lemma_vint_value_unique(rest, n);
                        assert(rest.skip(count.encoding().len() as int) =~= data@.skip(
                            mid as int,
                        ));
                        assert(!spec_parses::<T>(data@.skip(prev as int)));
                        assert(spec_seq_decode_error::<T>(
                            data@.skip(prev as int),
                            (n_items - i) as nat,
                        ) == T::decode_error(data@.skip(prev as int)));
                        assert(Self::decode_error(rest) == e);
                    }
                    *pos = start;
                    return Err(e);
                },
            }
        }
        proof {
            assert(items@.len() == n);
            assert(items.encoding() =~= data@.subrange(start as int, *pos as int));
        }
        Ok(items)
    }

    proof fn lemma_prefix_free(a: Self, b: Self) {
        if a.encoding().is_prefix_of(b.encoding()) {
            let s = b.encoding();
            vstd::std_specs::vec::axiom_spec_len(&a);
            vstd::std_specs::vec::axiom_spec_len(&b);
            lemma_concat_prefix_parts(spec_vint_encoding(a@.len()), spec_seq_encoding(a@), s);
            assert(s.is_prefix_of(s)) by {
                assert(s =~= s.subrange(0, s.len() as int));
            }
            lemma_concat_prefix_parts(spec_vint_encoding(b@.len()), spec_seq_encoding(b@), s);
            if spec_vint_encoding(a@.len()).len() <= spec_vint_encoding(b@.len()).len() {
                lemma_common_prefixes(
                    spec_vint_encoding(a@.len()),
                    spec_vint_encoding(b@.len()),
                    s,
                );
            } else {
                lemma_common_prefixes(
                    spec_vint_encoding(b@.len()),
                    spec_vint_encoding(a@.len()),
                    s,
                );
            }
            lemma_vint_prefix_free(a@.len(), b@.len());
            lemma_vint_prefix_free(b@.len(), a@.len());
            assert(a@.len() == b@.len());
            let k = spec_vint_encoding(b@.len()).len() as int;
            assert(spec_seq_encoding(a@).is_prefix_of(spec_seq_encoding(b@))) by {
                let sa = spec_seq_encoding(a@);
                let sb = spec_seq_encoding(b@);
                assert(sb =~= s.skip(k));
                assert(sa.is_prefix_of(s.skip(k)));
            }
            lemma_seq_encoding_equal_len(a@, b@);
            assert(a.encoding() =~= b.encoding());
        }
    }

    proof fn lemma_injective(a: Self, b: Self) {
        if a.encoding() == b.encoding() {
            assert(a.encoding().is_prefix_of(b.encoding())) by {
                assert(a.encoding() =~= b.encoding().subrange(0, a.encoding().len() as int));
            }
            Self::lemma_prefix_free(a, b);
            let s = b.encoding();
            vstd::std_specs::vec::axiom_spec_len(&a);
            vstd::std_specs::vec::axiom_spec_len(&b);
            lemma_concat_prefix_parts(spec_vint_encoding(a@.len()), spec_seq_encoding(a@), s);
            assert(s.is_prefix_of(s)) by {
                assert(s =~= s.subrange(0, s.len() as int));
            }
            lemma_concat_prefix_parts(spec_vint_encoding(b@.len()), spec_seq_encoding(b@), s);
            if spec_vint_encoding(a@.len()).len() <= spec_vint_encoding(b@.len()).len() {
                lemma_common_prefixes(
                    spec_vint_encoding(a@.len()),
                    spec_vint_encoding(b@.len()),
                    s,
                );
            } else {
                lemma_common_prefixes(
                    spec_vint_encoding(b@.len()),
                    spec_vint_encoding(a@.len()),
                    s,
                );
            }
            lemma_vint_prefix_free(a@.len(), b@.len());
            lemma_vint_prefix_free(b@.len(), a@.len());
            assert(a@.len() == b@.len());
            let k = spec_vint_encoding(b@.len()).len() as int;
            assert(spec_seq_encoding(a@).is_prefix_of(spec_seq_encoding(b@))) by {
                assert(spec_seq_encoding(b@) =~= s.skip(k));
                assert(spec_seq_encoding(a@).is_prefix_of(s.skip(k)));
            }
            lemma_seq_encoding_equal_len(a@, b@);
            assert(a.deep_view() =~= b.deep_view());
        }
    }
}

impl<L: BinarySerializable, R: BinarySerializable> BinarySerializable for (L, R) {
    open spec fn encoding(self) -> Seq<u8> {
        self.0.encoding() + self.1.encoding()
    }

    open spec fn decode_error(rest: Seq<u8>) -> DeserializeError {
        if !spec_parses::<L>(rest) {
            L::decode_error(rest)
        } else {
            R::decode_error(rest.skip(spec_parsed_len::<L>(rest)))
        }
    }

    fn serialize(&self, writer: &mut Vec<u8>) {
        self.0.serialize(writer);
        self.1.serialize(writer);
        proof {
            assert(final(writer)@ =~= old(writer)@ + self.encoding());
        }
    }

    fn deserialize(data: &[u8], pos: &mut usize) -> (res: Result<Self, DeserializeError>) {
        let start = *pos;
        let ghost rest = data@.skip(start as int);
        let left = match L::deserialize(data, pos) {
            Ok(v) => v,
            Err(e) => {
                proof {
                    assert forall|v: (L, R)| !(#[trigger] v.encoding()).is_prefix_of(rest) by {
                        if v.encoding().is_prefix_of(rest) {
                            assert(v.0.encoding().is_prefix_of(rest)) by {
                                assert(v.0.encoding() =~= rest.subrange(
                                    0,
                                    v.0.encoding().len() as int,
                                ));
                            }
                        }
                    }
                    assert(!spec_parses::<L>(rest));
                    assert(Self::decode_error(rest) == e);
                }
                return Err(e);
            },
        };
        let ghost mid = *pos;
        match R::deserialize(data, pos) {
            Ok(right) => {
                proof {
                    assert((left, right).encoding() =~= data@.subrange(
                        start as int,
                        *pos as int,
                    ));
                }
                Ok((left, right))
            },
            Err(e) => {
                proof {
                    assert(left.encoding().is_prefix_of(rest)) by {
                        assert(left.encoding() =~= rest.subrange(0, left.encoding().len() as int));
                    }
                    assert forall|v: (L, R)| !(#[trigger] v.encoding()).is_prefix_of(rest) by {
                        if v.encoding().is_prefix_of(rest) {
                            assert(v.0.encoding().is_prefix_of(rest)) by {
                                assert(v.0.encoding() =~= rest.subrange(
                                    0,
                                    v.0.encoding().len() as int,
                                ));
                            }
                            if v.0.encoding().len() <= left.encoding().len() {
                                lemma_common_prefixes(v.0.encoding(), left.encoding(), rest);
                                L::lemma_prefix_free(v.0, left);
                            } else {
                                lemma_common_prefixes(left.encoding(), v.0.encoding(), rest);
                                L::lemma_prefix_free(left, v.0);
                            }
                            assert(v.0.encoding() == left.encoding());
                            assert(v.1.encoding().is_prefix_of(data@.skip(mid as int))) by {
                                let k = left.encoding().len() as int;
                                let e1 = v.1.encoding();
                                assert(rest.skip(k) =~= data@.skip(mid as int));
                                assert(v.0.encoding().len() == k);
                                assert(v.encoding().len() == k + e1.len());
                                assert forall|i: int| 0 <= i < e1.len() implies e1[i]
                                    == rest.skip(k)[i] by {
                                    assert(v.encoding()[k + i] == e1[i]);
                                    assert(v.encoding()[k + i] == rest.subrange(
                                        0,
                                        v.encoding().len() as int,
                                    )[k + i]);
                                }
                                assert(e1 =~= rest.skip(k).subrange(0, e1.len() as int));
                            }
                        }
                    }
                    lemma_parsed_len::<L>(rest, left);
                    assert(rest.skip(left.encoding().len() as int) =~= data@.skip(mid as int));
                    assert(!spec_parses::<R>(data@.skip(mid as int)));
                    assert(Self::decode_error(rest) == e);
                }
                *pos = start;
                Err(e)
            },
        }
    }

    proof fn lemma_prefix_free(a: Self, b: Self) {
        if a.encoding().is_prefix_of(b.encoding()) {
            let s = b.encoding();
            assert(a.0.encoding().is_prefix_of(s)) by {
                assert(a.0.encoding() =~= s.subrange(0, a.0.encoding().len() as int));
            }
            assert(b.0.encoding().is_prefix_of(s)) by {
                assert(b.0.encoding() =~= s.subrange(0, b.0.encoding().len() as int));
            }
            if a.0.encoding().len() <= b.0.encoding().len() {
                lemma_common_prefixes(a.0.encoding(), b.0.encoding(), s);
                L::lemma_prefix_free(a.0, b.0);
            } else {
                lemma_common_prefixes(b.0.encoding(), a.0.encoding(), s);
                L::lemma_prefix_free(b.0, a.0);
            }
            assert(a.0.encoding() == b.0.encoding());
            let k = b.0.encoding().len() as int;
            assert(a.1.encoding().is_prefix_of(b.1.encoding())) by {
                let e1 = a.1.encoding();
                assert(b.1.encoding() =~= s.skip(k));
                assert(a.0.encoding().len() == k);
                assert(a.encoding().len() == k + e1.len());
                assert forall|i: int| 0 <= i < e1.len() implies e1[i] == s.skip(k)[i] by {
                    assert(a.encoding()[k + i] == e1[i]);
                    assert(a.encoding()[k + i] == s.subrange(0, a.encoding().len() as int)[k
                        + i]);
                }
                assert(e1 =~= s.skip(k).subrange(0, e1.len() as int));
            }
            R::lemma_prefix_free(a.1, b.1);
            assert(a.encoding() =~= b.encoding());
        }
    }

    proof fn lemma_injective(a: Self, b: Self) {
        if a.encoding() == b.encoding() {
            Self::lemma_prefix_free(a, b);
            let s = b.encoding();
            assert(a.0.encoding().is_prefix_of(s)) by {
                assert(a.0.encoding() =~= s.subrange(0, a.0.encoding().len() as int));
            }
            assert(b.0.encoding().is_prefix_of(s)) by {
                assert(b.0.encoding() =~= s.subrange(0, b.0.encoding().len() as int));
            }
            if a.0.encoding().len() <= b.0.encoding().len() {
                lemma_common_prefixes(a.0.encoding(), b.0.encoding(), s);
                L::lemma_prefix_free(a.0, b.0);
            } else {
                lemma_common_prefixes(b.0.encoding(), a.0.encoding(), s);
                L::lemma_prefix_free(b.0, a.0);
            }
            assert(a.0.encoding() == b.0.encoding());
            L::lemma_injective(a.0, b.0);
            let k = b.0.encoding().len() as int;
            assert(a.1.encoding() == b.1.encoding()) by {
                assert(a.1.encoding() =~= a.encoding().skip(k));
                assert(b.1.encoding() =~= b.encoding().skip(k));
            }
            R::lemma_injective(a.1, b.1);
        }
    }
}

impl<L: BinarySerializable + FixedSize, R: BinarySerializable + FixedSize> FixedSize for (L, R) {
    open spec fn spec_size_in_bytes() -> nat {
        L::spec_size_in_bytes() + R::spec_size_in_bytes()
    }

    fn size_in_bytes() -> (n: usize) {
        L::size_in_bytes() + R::size_in_bytes()
    }

    proof fn lemma_encoding_len(x: Self) {
        L::lemma_encoding_len(x.0);
        R::lemma_encoding_len(x.1);
    }
}

/// Reading serializable values straight off a byte slice, consuming them
/// from its front.
pub trait DeserializeFrom<T: BinarySerializable>: Sized {
    /// The bytes not yet consumed.
    spec fn remaining(self) -> Seq<u8>;

    /// Read one value, consuming exactly its encoding on success; on
    /// failure nothing is consumed and no value's encoding starts here.
    fn deserialize(&mut self) -> (res: Result<T, DeserializeError>)
        ensures
            (match res {
                Ok(v) => old(self).remaining() == v.encoding() + final(self).remaining(),
                Err(e) => {
                    &&& final(self).remaining() == old(self).remaining()
                    &&& forall|v: T|
                        !(#[trigger] v.encoding()).is_prefix_of(old(self).remaining())
                    &&& e == T::decode_error(old(self).remaining())
                },
            }),
    ;
}

impl<'a, T: BinarySerializable> DeserializeFrom<T> for &'a [u8] {
    open spec fn remaining(self) -> Seq<u8> {
        self@
    }

    fn deserialize(&mut self) -> (res: Result<T, DeserializeError>) {
        let ghost data_view = self@;
        proof {
            vstd::slice::axiom_spec_len(*self);
        }
        let mut p: usize = 0;
        match T::deserialize(*self, &mut p) {
            Ok(v) => {
                let rest = vstd::slice::slice_subrange(*self, p, self.len());
                proof {
                    assert(old(self)@ =~= v.encoding() + rest@);
                }
                *self = rest;
                Ok(v)
            },
            Err(e) => {
                proof {
                    assert(data_view.skip(0) =~= data_view);
                }
                Err(e)
            },
        }
    }
}

} // verus!
