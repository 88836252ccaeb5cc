//! The field identifier the schema hands to the storage layer.

use vstd::prelude::*;
use crate::serialize::{BinarySerializable, DeserializeError, FixedSize};
use vstd::bytes::*;

verus! {

/// Identifies one field of the schema: an opaque, fixed-width key.
#[derive(Copy, Clone, Debug, PartialEq, Eq, PartialOrd, Ord, Hash, Structural)]
pub struct Field(u32);

impl Field {
    /// The field with the given numeric identifier.
    pub fn from_field_id(field_id: u32) -> (r: Self)
        ensures
            r.spec_field_id() == field_id,
    {
        Field(field_id)
    }

    /// This field's numeric identifier.
    pub fn field_id(&self) -> (r: u32)
        ensures
            r == self.spec_field_id(),
    {
        self.0
    }

    /// The numeric identifier, for contracts.
    pub closed spec fn spec_field_id(self) -> u32 {
        self.0
    }
}

impl View for Field {
    type V = u32;

    open spec fn view(&self) -> u32 {
        self.spec_field_id()
    }
}

impl DeepView for Field {
    type V = u32;

    open spec fn deep_view(&self) -> u32 {
        self.view()
    }
}

impl BinarySerializable for Field {
    open spec fn encoding(self) -> Seq<u8> {
        spec_u32_to_le_bytes(self.spec_field_id())
    }

    open spec fn decode_error(rest: Seq<u8>) -> DeserializeError {
        DeserializeError::UnexpectedEnd
    }

    fn serialize(&self, writer: &mut Vec<u8>) {
        self.0.serialize(writer);
        proof {
            assert(writer@ =~= old(writer)@ + self.encoding());
        }
    }

    fn deserialize(data: &[u8], pos: &mut usize) -> (res: Result<Self, DeserializeError>) {
        match u32::deserialize(data, pos) {
            Ok(id) => Ok(Field(id)),
            Err(e) => {
                proof {
                    assert forall|v: Field|
                        !(#[trigger] v.encoding()).is_prefix_of(data@.skip(*pos as int)) by {
                        assert(v.encoding() == v.spec_field_id().encoding());
                    }
                }
                Err(e)
            },
        }
    }

    proof fn lemma_prefix_free(a: Self, b: Self) {
        <u32 as BinarySerializable>::lemma_prefix_free(a.spec_field_id(), b.spec_field_id());
    }

    proof fn lemma_injective(a: Self, b: Self) {
        <u32 as BinarySerializable>::lemma_injective(a.spec_field_id(), b.spec_field_id());
    }
}

impl FixedSize for Field {
    open spec fn spec_size_in_bytes() -> nat {
        4
    }

    fn size_in_bytes() -> usize {
        4
    }

    proof fn lemma_encoding_len(x: Self) {
        <u32 as FixedSize>::lemma_encoding_len(x.spec_field_id());
    }
}

/// The field with the given identifier, for spec-level reasoning.
pub closed spec fn spec_field_from_id(id: u32) -> Field {
    Field(id)
}

/// What [`spec_field_from_id`] names: the field whose identifier is `id`.
pub proof fn lemma_field_from_id(id: u32)
    ensures
        spec_field_from_id(id).spec_field_id() == id,
{
}

/// Two fields with the same numeric identifier are the same field.
pub proof fn lemma_field_id_determines_field(a: Field, b: Field)
    requires
        a.spec_field_id() == b.spec_field_id(),
    ensures
        a == b,
{
}

} // verus!
