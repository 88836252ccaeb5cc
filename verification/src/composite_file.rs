//! The composite file container.
//!
//! A composite file multiplexes many logically distinct per-field byte
//! streams into one physical file. The writer appends each field's bytes and
//! finally a footer: a count of segments, then per segment a delta-encoded
//! start offset and the segment's key, and as the very last four bytes the
//! footer's own length. The reader locates the footer from that trailing
//! length field and rebuilds the key-to-byte-range directory.

use vstd::prelude::*;
use vstd::bytes::*;
use crate::serialize::{
    BinarySerializable, DeserializeError, lemma_common_prefixes, lemma_concat_prefix_parts,
};
use crate::vint::{
    VInt, spec_vint_encoding, lemma_vint_prefix_free, lemma_vint_encoding_first_byte,
    lemma_vint_encoding_len_upper, spec_vint_decode_error, spec_vint_parses, spec_vint_value,
    lemma_vint_value_unique,
};
use crate::schema::{Field, lemma_field_id_determines_field, spec_field_from_id, lemma_field_from_id};

verus! {

/// The key of one segment: a field together with a secondary index, so one
/// field can carry several logical sub-streams.
#[derive(Eq, PartialEq, Hash, Copy, Ord, PartialOrd, Clone, Debug, Structural)]
pub struct FileAddr {
    /// The field this key belongs to.
    pub field: Field,
    /// The sub-stream index within the field.
    pub idx: usize,
}

impl FileAddr {
    /// The key for `field`'s sub-stream `idx`.
    pub fn new(field: Field, idx: usize) -> (r: Self)
        ensures
            r == (FileAddr { field, idx }),
    {
        FileAddr { field, idx }
    }

    /// The field part of the key.
    pub open spec fn spec_field(self) -> Field {
        self.field
    }

    /// The sub-stream part of the key.
    pub open spec fn spec_idx(self) -> usize {
        self.idx
    }
}

impl View for FileAddr {
    type V = FileAddr;

    open spec fn view(&self) -> FileAddr {
        *self
    }
}

impl DeepView for FileAddr {
    type V = FileAddr;

    open spec fn deep_view(&self) -> FileAddr {
        *self
    }
}

impl BinarySerializable for FileAddr {
    open spec fn encoding(self) -> Seq<u8> {
        self.spec_field().encoding() + spec_vint_encoding(self.spec_idx() as nat)
    }

    open spec fn decode_error(rest: Seq<u8>) -> DeserializeError {
        if rest.len() < 4 {
            DeserializeError::UnexpectedEnd
        } else if !spec_vint_parses(rest.skip(4)) {
            spec_vint_decode_error(rest.skip(4))
        } else if spec_vint_value(rest.skip(4)) > usize::MAX {
            DeserializeError::InvalidVInt
        } else {
            DeserializeError::UnexpectedEnd
        }
    }

    fn serialize(&self, writer: &mut Vec<u8>) {
        self.field.serialize(writer);
        VInt(self.idx as u64).serialize(writer);
        proof {
            assert(writer@ =~= old(writer)@ + self.encoding());
        }
    }

    fn deserialize(data: &[u8], pos: &mut usize) -> (res: Result<Self, DeserializeError>) {
        let start = *pos;
        let ghost rest = data@.skip(start as int);
        let field = match Field::deserialize(data, pos) {
            Ok(f) => f,
            Err(e) => {
                proof {
                    assert forall|v: FileAddr| !(#[trigger] v.encoding()).is_prefix_of(rest) by {
                        if v.encoding().is_prefix_of(rest) {
                            lemma_concat_prefix_parts(
                                v.spec_field().encoding(),
                                spec_vint_encoding(v.spec_idx() as nat),
                                rest,
                            );
                        }
                    }
                    assert(rest.len() < 4) by {
                        if rest.len() >= 4 {
                            vstd::bytes::lemma_auto_spec_u32_to_from_le_bytes();
                            let id = spec_u32_from_le_bytes(rest.subrange(0, 4));
                            lemma_field_from_id(id);
                            let f2 = spec_field_from_id(id);
                            assert(rest.subrange(0, 4).len() == 4);
                            assert(spec_u32_to_le_bytes(id) == rest.subrange(0, 4));
                            assert(f2.encoding().is_prefix_of(rest)) by {
                                assert(f2.encoding() =~= rest.subrange(0, 4));
                            }
                            assert(false);
                        }
                    }
                    assert(Self::decode_error(rest) == e);
                }
                return Err(e);
            },
        };
        let ghost mid = *pos;
        match VInt::deserialize(data, pos) {
            Ok(v) => {
                let idx64 = v.val();
                if idx64 > usize::MAX as u64 {
                    proof {
                        assert forall|w: FileAddr|
                            !(#[trigger] w.encoding()).is_prefix_of(rest) by {
                            if w.encoding().is_prefix_of(rest) {
                                lemma_concat_prefix_parts(
                                    w.spec_field().encoding(),
                                    spec_vint_encoding(w.spec_idx() as nat),
                                    rest,
                                );
                                assert(field.encoding().is_prefix_of(rest)) by {
                                    assert(field.encoding() =~= rest.subrange(
                                        0,
                                        field.encoding().len() as int,
                                    ));
                                }
                                if w.spec_field().encoding().len() <= field.encoding().len() {
                                    lemma_common_prefixes(
                                        w.spec_field().encoding(),
                                        field.encoding(),
                                        rest,
                                    );
                                    Field::lemma_prefix_free(w.spec_field(), field);
                                } else {
                                    lemma_common_prefixes(
                                        field.encoding(),
                                        w.spec_field().encoding(),
                                        rest,
                                    );
                                    Field::lemma_prefix_free(field, w.spec_field());
                                }
                                let k = field.encoding().len() as int;
                                assert(spec_vint_encoding(w.spec_idx() as nat).is_prefix_of(
                                    data@.skip(mid as int),
                                )) by {
                                    assert(rest.skip(k) =~= data@.skip(mid as int));
                                }
                                assert(v.encoding().is_prefix_of(data@.skip(mid as int))) by {
                                    assert(v.encoding() =~= data@.subrange(mid as int, *pos as int));
                                    assert(v.encoding() =~= data@.skip(mid as int).subrange(
                                        0,
                                        v.encoding().len() as int,
                                    ));
                                }
                                if spec_vint_encoding(w.spec_idx() as nat).len()
                                    <= v.encoding().len() {
                                    lemma_common_prefixes(
                                        spec_vint_encoding(w.spec_idx() as nat),
                                        v.encoding(),
                                        data@.skip(mid as int),
                                    );
                                } else {
                                    lemma_common_prefixes(
                                        v.encoding(),
                                        spec_vint_encoding(w.spec_idx() as nat),
                                        data@.skip(mid as int),
                                    );
                                }
                                lemma_vint_prefix_free(w.spec_idx() as nat, idx64 as nat);
                                lemma_vint_prefix_free(idx64 as nat, w.spec_idx() as nat);
                                assert(false);
                            }
                        }
                        assert(field.encoding().len() == 4) by {
                            vstd::bytes::lemma_auto_spec_u32_to_from_le_bytes();
                        }
                        assert(mid == start + 4);
                        assert(rest.skip(4) =~= data@.skip(mid as int));
                        assert(v.encoding().is_prefix_of(data@.skip(mid as int))) by {
                            assert(v.encoding() =~= data@.subrange(mid as int, *pos as int));
                            assert(v.encoding() =~= data@.skip(mid as int).subrange(
                                0,
                                v.encoding().len() as int,
                            ));
                        }
                        lemma_vint_value_unique(data@.skip(mid as int), idx64);
                        assert(spec_vint_parses(rest.skip(4)));
                        assert(spec_vint_value(rest.skip(4)) == idx64);
                        assert(Self::decode_error(rest) == DeserializeError::InvalidVInt);
                    }
                    *pos = start;
                    return Err(DeserializeError::InvalidVInt);
                }
                let r = FileAddr { field, idx: idx64 as usize };
                proof {
                    assert(r.encoding() =~= data@.subrange(start as int, *pos as int));
                }
                Ok(r)
            },
            Err(e) => {
                proof {
                    assert forall|w: FileAddr| !(#[trigger] w.encoding()).is_prefix_of(rest) by {
                        if w.encoding().is_prefix_of(rest) {
                            lemma_concat_prefix_parts(
                                w.spec_field().encoding(),
                                spec_vint_encoding(w.spec_idx() as nat),
                                rest,
                            );
                            assert(field.encoding().is_prefix_of(rest)) by {
                                assert(field.encoding() =~= rest.subrange(
                                    0,
                                    field.encoding().len() as int,
                                ));
                            }
                            if w.spec_field().encoding().len() <= field.encoding().len() {
                                lemma_common_prefixes(
                                    w.spec_field().encoding(),
                                    field.encoding(),
                                    rest,
                                );
                                Field::lemma_prefix_free(w.spec_field(), field);
                            } else {
                                lemma_common_prefixes(
                                    field.encoding(),
                                    w.spec_field().encoding(),
                                    rest,
                                );
                                Field::lemma_prefix_free(field, w.spec_field());
                            }
                            let k = field.encoding().len() as int;
                            assert(spec_vint_encoding(w.spec_idx() as nat).is_prefix_of(
                                data@.skip(mid as int),
                            )) by {
                                assert(rest.skip(k) =~= data@.skip(mid as int));
                            }
                            let c = VInt(w.spec_idx() as u64);
                            assert(c.encoding().is_prefix_of(data@.skip(mid as int)));
                            assert(false);
                        }
                    }
                    assert(field.encoding().len() == 4) by {
                        vstd::bytes::lemma_auto_spec_u32_to_from_le_bytes();
                    }
                    assert(mid == start + 4);
                    assert(rest.skip(4) =~= data@.skip(mid as int));
                    assert(!spec_vint_parses(rest.skip(4))) by {
                        if spec_vint_parses(rest.skip(4)) {
                            let nn = spec_vint_value(rest.skip(4));
                            assert(spec_vint_encoding(nn as nat).is_prefix_of(rest.skip(4)));
                            assert(VInt(nn).encoding().is_prefix_of(data@.skip(mid as int)));
                        }
                    }
                    assert(Self::decode_error(rest) == e);
                }
                *pos = start;
                Err(e)
            },
        }
    }

    proof fn lemma_prefix_free(a: Self, b: Self) {
        if a.encoding().is_prefix_of(b.encoding()) {
            let s = b.encoding();
            lemma_concat_prefix_parts(
                a.spec_field().encoding(),
                spec_vint_encoding(a.spec_idx() as nat),
                s,
            );
            assert(s.is_prefix_of(s)) by {
                assert(s =~= s.subrange(0, s.len() as int));
            }
            lemma_concat_prefix_parts(
                b.spec_field().encoding(),
                spec_vint_encoding(b.spec_idx() as nat),
                s,
            );
            if a.spec_field().encoding().len() <= b.spec_field().encoding().len() {
                lemma_common_prefixes(a.spec_field().encoding(), b.spec_field().encoding(), s);
                Field::lemma_prefix_free(a.spec_field(), b.spec_field());
            } else {
                lemma_common_prefixes(b.spec_field().encoding(), a.spec_field().encoding(), s);
                Field::lemma_prefix_free(b.spec_field(), a.spec_field());
            }
            let k = b.spec_field().encoding().len() as int;
            assert(spec_vint_encoding(a.spec_idx() as nat).is_prefix_of(
                spec_vint_encoding(b.spec_idx() as nat),
            )) by {
                assert(spec_vint_encoding(b.spec_idx() as nat) =~= s.skip(k));
            }
            lemma_vint_prefix_free(a.spec_idx() as nat, b.spec_idx() as nat);
            assert(a.encoding() =~= b.encoding());
        }
    }

    proof fn lemma_injective(a: Self, b: Self) {
        if a.encoding() == b.encoding() {
            assert(a.encoding().is_prefix_of(b.encoding())) by {
                assert(a.encoding() =~= b.encoding().subrange(0, a.encoding().len() as int));
            }
            let s = b.encoding();
            lemma_concat_prefix_parts(
                a.spec_field().encoding(),
                spec_vint_encoding(a.spec_idx() as nat),
                s,
            );
            assert(s.is_prefix_of(s)) by {
                assert(s =~= s.subrange(0, s.len() as int));
            }
            lemma_concat_prefix_parts(
                b.spec_field().encoding(),
                spec_vint_encoding(b.spec_idx() as nat),
                s,
            );
            if a.spec_field().encoding().len() <= b.spec_field().encoding().len() {
                lemma_common_prefixes(a.spec_field().encoding(), b.spec_field().encoding(), s);
                Field::lemma_prefix_free(a.spec_field(), b.spec_field());
            } else {
                lemma_common_prefixes(b.spec_field().encoding(), a.spec_field().encoding(), s);
                Field::lemma_prefix_free(b.spec_field(), a.spec_field());
            }
            Field::lemma_injective(a.spec_field(), b.spec_field());
            assert(a.spec_field().spec_field_id() == b.spec_field().spec_field_id());
            assert(a.spec_field() == b.spec_field()) by {
                assert(a.spec_field().deep_view() == b.spec_field().deep_view());
                lemma_field_id_determines_field(a.spec_field(), b.spec_field());
            }
            let k = b.spec_field().encoding().len() as int;
            assert(spec_vint_encoding(a.spec_idx() as nat) =~= spec_vint_encoding(
                b.spec_idx() as nat,
            )) by {
                assert(spec_vint_encoding(a.spec_idx() as nat) =~= s.skip(k));
                assert(spec_vint_encoding(b.spec_idx() as nat) =~= s.skip(k));
            }
            lemma_vint_prefix_free(a.spec_idx() as nat, b.spec_idx() as nat);
            assert(a.spec_idx() == b.spec_idx());
        }
    }
}

/// The footer bytes for the segments in `offsets`, each entry the
/// variable-length delta from the previous segment's start followed by the
/// segment's key. `prev` is the start offset of the preceding segment.
pub open spec fn spec_footer_entries(offsets: Seq<(FileAddr, u64)>, prev: int) -> Seq<u8>
    decreases offsets.len(),
{
    if offsets.len() == 0 {
        Seq::empty()
    } else {
        spec_vint_encoding((offsets[0].1 - prev) as nat) + offsets[0].0.encoding()
            + spec_footer_entries(offsets.drop_first(), offsets[0].1 as int)
    }
}

/// The footer's body: the segment count, then the delta-encoded entries.
pub open spec fn spec_footer_body(offsets: Seq<(FileAddr, u64)>) -> Seq<u8> {
    spec_vint_encoding(offsets.len()) + spec_footer_entries(offsets, 0)
}

/// The complete footer: its body followed by the body's length as a
/// fixed-width 32-bit integer, the last four bytes of the file.
pub open spec fn spec_footer(offsets: Seq<(FileAddr, u64)>) -> Seq<u8> {
    spec_footer_body(offsets) + spec_u32_to_le_bytes(spec_footer_body(offsets).len() as u32)
}

/// What a well-formed writer state guarantees of its recorded segments:
/// distinct keys, start offsets in write order, none past `data_len`.
pub open spec fn spec_offsets_wf(offsets: Seq<(FileAddr, u64)>, data_len: int) -> bool {
    &&& forall|i: int, j: int|
        0 <= i < j < offsets.len() ==> (#[trigger] offsets[i]).0 != (#[trigger] offsets[j]).0
    &&& forall|i: int, j: int|
        0 <= i <= j < offsets.len() ==> (#[trigger] offsets[i]).1 <= (#[trigger] offsets[j]).1
    &&& forall|i: int| 0 <= i < offsets.len() ==> (#[trigger] offsets[i]).1 <= data_len
}

/// What the writer looks like in contracts: the bytes written so far and the
/// recorded segment starts.
pub ghost struct CompositeWriteView {
    /// Bytes of every segment written so far, in order.
    pub data: Seq<u8>,
    /// Each registered key with the offset at which its segment starts.
    pub offsets: Seq<(FileAddr, u64)>,
}

/// Writes a composite file into an in-memory buffer: segment bytes are
/// appended through [`CompositeWrite::write_bytes`] under the key last
/// registered, and [`CompositeWrite::close`] appends the footer.
pub struct CompositeWrite {
    write: Vec<u8>,
    offsets: Vec<(FileAddr, u64)>,
}

impl View for CompositeWrite {
    type V = CompositeWriteView;

    closed spec fn view(&self) -> CompositeWriteView {
        CompositeWriteView { data: self.write@, offsets: self.offsets@ }
    }
}

impl CompositeWrite {
    /// Well-formedness of the writer state: distinct keys registered in
    /// offset order, and a footer body that still fits its 4-byte trailing
    /// length field, so the writer can always be closed.
    pub open spec fn wf(self) -> bool {
        &&& spec_offsets_wf(self@.offsets, self@.data.len() as int)
        &&& spec_footer_body(self@.offsets).len() <= u32::MAX
    }

    /// Whether `key` has already been registered.
    pub open spec fn spec_contains_key(self, key: FileAddr) -> bool {
        exists|i: int| 0 <= i < self@.offsets.len() && (#[trigger] self@.offsets[i]).0 == key
    }

    /// A new writer with nothing written.
    pub fn wrap() -> (r: Self)
        ensures
            r.wf(),
            r@.data == Seq::<u8>::empty(),
            r@.offsets == Seq::<(FileAddr, u64)>::empty(),
    {
        let r = CompositeWrite { write: Vec::new(), offsets: Vec::new() };
        proof {
            lemma_vint_encoding_first_byte(0);
            assert(spec_footer_entries(r@.offsets, 0) == Seq::<u8>::empty());
            assert(spec_footer_body(r@.offsets).len() == 1);
        }
        r
    }

    /// The number of bytes written so far.
    pub fn written_bytes(&self) -> (r: u64)
        requires
            self@.data.len() <= u64::MAX,
        ensures
            r == self@.data.len(),
    {
        self.write.len() as u64
    }

    /// Starts the segment of `field` (sub-stream 0) at the current offset.
    /// Each key may be registered at most once, and the grown footer must
    /// still fit its length field; `lemma_footer_body_len_upper` bounds it.
    pub fn for_field(&mut self, field: Field)
        requires
            old(self).wf(),
            !old(self).spec_contains_key((FileAddr { field, idx: 0 })),
            old(self)@.data.len() <= u64::MAX,
            spec_footer_body(
                old(self)@.offsets.push(((FileAddr { field, idx: 0 }), old(self)@.data.len() as u64)),
            ).len() <= u32::MAX,
        ensures
            final(self).wf(),
            final(self)@.data == old(self)@.data,
            final(self)@.offsets == old(self)@.offsets.push(
                ((FileAddr { field, idx: 0 }), old(self)@.data.len() as u64),
            ),
    {
        self.for_field_with_idx(field, 0)
    }

    /// Starts the segment of `field`'s sub-stream `idx` at the current
    /// offset. Each key may be registered at most once, and the grown
    /// footer must still fit its length field;
    /// `lemma_footer_body_len_upper` bounds it.
    pub fn for_field_with_idx(&mut self, field: Field, idx: usize)
        requires
            old(self).wf(),
            !old(self).spec_contains_key((FileAddr { field, idx })),
            old(self)@.data.len() <= u64::MAX,
            spec_footer_body(
                old(self)@.offsets.push(((FileAddr { field, idx }), old(self)@.data.len() as u64)),
            ).len() <= u32::MAX,
        ensures
            final(self).wf(),
            final(self)@.data == old(self)@.data,
            final(self)@.offsets == old(self)@.offsets.push(
                ((FileAddr { field, idx }), old(self)@.data.len() as u64),
            ),
    {
        let offset = self.write.len() as u64;
        let file_addr = FileAddr::new(field, idx);
        self.offsets.push((file_addr, offset));
        proof {
            assert forall|i: int, j: int| 0 <= i < j < self@.offsets.len() implies (
            #[trigger] self@.offsets[i]).0 != (#[trigger] self@.offsets[j]).0 by {
                if j == self@.offsets.len() - 1 {
                    assert(old(self)@.offsets[i] == self@.offsets[i]);
                }
            }
        }
    }

    /// Appends `data` to the segment last registered.
    pub fn write_bytes(&mut self, data: &[u8])
        requires
            old(self).wf(),
        ensures
            final(self).wf(),
            final(self)@.data == old(self)@.data + data@,
            final(self)@.offsets == old(self)@.offsets,
    {
        self.write.extend_from_slice(data);
        proof {
            assert(self.write@ =~= old(self).write@ + data@);
        }
    }

    /// Closes the composite file: appends the footer and returns the
    /// complete file bytes.
    pub fn close(self) -> (r: Vec<u8>)
        requires
            self.wf(),
        ensures
            r@ == self@.data + spec_footer(self@.offsets),
    {
        let ghost all_offsets = self@.offsets;
        let ghost base = self@.data;
        let CompositeWrite { write: mut buf, offsets } = self;
        let footer_offset = buf.len();
        let count = VInt(offsets.len() as u64);
        count.serialize(&mut buf);
        let mut prev_offset: u64 = 0;
        let mut i: usize = 0;
        proof {
            assert(all_offsets.take(0) =~= Seq::<(FileAddr, u64)>::empty());
            assert(buf@ =~= base + spec_vint_encoding(all_offsets.len()) + spec_footer_entries(
                all_offsets.take(0),
                0,
            ));
        }
        while i < offsets.len()
            invariant
                i <= all_offsets.len(),
                offsets@ == all_offsets,
                spec_offsets_wf(all_offsets, base.len() as int),
                prev_offset == spec_last_offset(all_offsets.take(i as int), 0),
                buf@ == base + spec_vint_encoding(all_offsets.len()) + spec_footer_entries(
                    all_offsets.take(i as int),
                    0,
                ),
            decreases all_offsets.len() - i,
        {
            let (file_addr, offset) = offsets[i];
            proof {
                assert(all_offsets[i as int].1 >= prev_offset) by {
                    if i > 0 {
                        assert(all_offsets[i - 1].1 <= all_offsets[i as int].1);
                    }
                }
                lemma_footer_entries_snoc(all_offsets.take(i as int), all_offsets[i as int], 0);
                assert(all_offsets.take(i + 1) =~= all_offsets.take(i as int).push(
                    all_offsets[i as int],
                ));
            }
            VInt(offset - prev_offset).serialize(&mut buf);
            file_addr.serialize(&mut buf);
            proof {
                assert(buf@ =~= base + spec_vint_encoding(all_offsets.len())
                    + spec_footer_entries(all_offsets.take(i + 1), 0));
            }
            prev_offset = offset;
            i = i + 1;
        }
        proof {
            assert(all_offsets.take(all_offsets.len() as int) =~= all_offsets);
            assert(buf@ =~= base + spec_footer_body(all_offsets));
        }
        let footer_len = (buf.len() - footer_offset) as u32;
        footer_len.serialize(&mut buf);
        proof {
            assert(buf@ =~= base + spec_footer(all_offsets));
        }
        buf
    }
}

/// The start offset of the last segment in `offsets`, or `orig` when there
/// is none: the base the next delta is taken against.
pub open spec fn spec_last_offset(offsets: Seq<(FileAddr, u64)>, orig: int) -> int {
    if offsets.len() == 0 {
        orig
    } else {
        offsets.last().1 as int
    }
}

/// Appending a segment appends one delta-and-key entry to the footer body.
pub proof fn lemma_footer_entries_snoc(offsets: Seq<(FileAddr, u64)>, x: (FileAddr, u64), prev: int)
    requires
        spec_last_offset(offsets, prev) <= x.1,
    ensures
        spec_footer_entries(offsets.push(x), prev) == spec_footer_entries(offsets, prev)
            + spec_vint_encoding((x.1 - spec_last_offset(offsets, prev)) as nat) + x.0.encoding(),
    decreases offsets.len(),
{
    if offsets.len() == 0 {
        assert(offsets.push(x)[0] == x);
        assert(offsets.push(x).drop_first() =~= Seq::<(FileAddr, u64)>::empty());
        assert(spec_footer_entries(Seq::<(FileAddr, u64)>::empty(), x.1 as int)
            == Seq::<u8>::empty());
        assert(spec_footer_entries(offsets, prev) == Seq::<u8>::empty());
        assert(spec_footer_entries(offsets.push(x), prev) == spec_vint_encoding(
            (x.1 - prev) as nat,
        ) + x.0.encoding() + spec_footer_entries(offsets.push(x).drop_first(), x.1 as int));
        assert(spec_footer_entries(offsets.push(x), prev) =~= spec_footer_entries(offsets, prev)
            + spec_vint_encoding((x.1 - prev) as nat) + x.0.encoding());
    } else {
        assert(offsets.push(x)[0] == offsets[0]);
        assert(offsets.push(x).drop_first() =~= offsets.drop_first().push(x));
        lemma_footer_entries_snoc(offsets.drop_first(), x, offsets[0].1 as int);
        assert(spec_last_offset(offsets.drop_first(), offsets[0].1 as int) == spec_last_offset(
            offsets,
            prev,
        )) by {
            if offsets.len() > 1 {
                assert(offsets.drop_first().last() == offsets.last());
            }
        }
        assert(spec_footer_entries(offsets.push(x), prev) =~= spec_footer_entries(offsets, prev)
            + spec_vint_encoding((x.1 - spec_last_offset(offsets, prev)) as nat) + x.0.encoding());
    }
}

/// Each footer entry takes at most 24 bytes: up to ten for the delta, four
/// for the field and up to ten for the sub-stream index.
proof fn lemma_footer_entries_len_upper(offsets: Seq<(FileAddr, u64)>, prev: int)
    requires
        0 <= prev,
        spec_offsets_from(offsets, prev),
    ensures
        spec_footer_entries(offsets, prev).len() <= 24 * offsets.len(),
    decreases offsets.len(),
{
    if offsets.len() > 0 {
        assert(prev <= offsets[0].1);
        lemma_vint_encoding_len_upper((offsets[0].1 - prev) as nat);
        lemma_vint_encoding_len_upper(offsets[0].0.spec_idx() as nat);
        vstd::bytes::lemma_auto_spec_u32_to_from_le_bytes();
        assert(offsets[0].0.encoding().len() <= 14);
        assert(spec_offsets_from(offsets.drop_first(), offsets[0].1 as int)) by {
            assert forall|i: int| 0 <= i < offsets.drop_first().len() implies offsets[0].1 <= (
            #[trigger] offsets.drop_first()[i]).1 by {
                assert(offsets.drop_first()[i] == offsets[i + 1]);
                assert(offsets[0].1 <= offsets[i + 1].1);
            }
        }
        lemma_footer_entries_len_upper(offsets.drop_first(), offsets[0].1 as int);
    }
}

/// An upper bound on the footer's body: ten bytes for the count and at most
/// 24 per segment. This is how a caller discharges the size bound that
/// [`CompositeWrite::close`] asks for.
pub proof fn lemma_footer_body_len_upper(offsets: Seq<(FileAddr, u64)>)
    requires
        spec_offsets_from(offsets, 0),
        offsets.len() <= u64::MAX,
    ensures
        spec_footer_body(offsets).len() <= 10 + 24 * offsets.len(),
{
    lemma_vint_encoding_len_upper(offsets.len());
    lemma_footer_entries_len_upper(offsets, 0);
}

/// Segment starts that never decrease and never drop below `prev`.
pub open spec fn spec_offsets_from(offsets: Seq<(FileAddr, u64)>, prev: int) -> bool {
    &&& forall|i: int| 0 <= i < offsets.len() ==> prev <= (#[trigger] offsets[i]).1
    &&& forall|i: int, j: int|
        0 <= i <= j < offsets.len() ==> (#[trigger] offsets[i]).1 <= (#[trigger] offsets[j]).1
}

/// Every footer entry takes at least six bytes: one for the delta, four for
/// the field, one for the sub-stream index.
proof fn lemma_footer_entries_len_lower(offsets: Seq<(FileAddr, u64)>, prev: int)
    ensures
        spec_footer_entries(offsets, prev).len() >= 6 * offsets.len(),
    decreases offsets.len(),
{
    if offsets.len() > 0 {
        lemma_vint_encoding_first_byte((offsets[0].1 - prev) as nat);
        lemma_vint_encoding_first_byte(offsets[0].0.spec_idx() as nat);
        vstd::bytes::lemma_auto_spec_u32_to_from_le_bytes();
        assert(offsets[0].0.encoding().len() >= 5);
        lemma_footer_entries_len_lower(offsets.drop_first(), offsets[0].1 as int);
    }
}

/// Two runs of footer entries over the same stream agree entry for entry as
/// far as the shorter one reaches, and the longer one continues where the
/// shorter one ends.
proof fn lemma_footer_entries_agree(
    a: Seq<(FileAddr, u64)>,
    b: Seq<(FileAddr, u64)>,
    prev: int,
    s: Seq<u8>,
)
    requires
        a.len() <= b.len(),
        spec_offsets_from(a, prev),
        spec_offsets_from(b, prev),
        spec_footer_entries(a, prev).is_prefix_of(s),
        spec_footer_entries(b, prev).is_prefix_of(s),
    ensures
        forall|i: int| 0 <= i < a.len() ==> a[i] == b[i],
        spec_footer_entries(b, prev) == spec_footer_entries(a, prev) + spec_footer_entries(
            b.skip(a.len() as int),
            spec_last_offset(a, prev),
        ),
    decreases a.len(),
{
    if a.len() == 0 {
        assert(b.skip(0) =~= b);
        assert(spec_footer_entries(a, prev) == Seq::<u8>::empty());
        assert(spec_footer_entries(b, prev) =~= spec_footer_entries(a, prev)
            + spec_footer_entries(b.skip(0), prev));
    } else {
        let da = spec_vint_encoding((a[0].1 - prev) as nat);
        let db = spec_vint_encoding((b[0].1 - prev) as nat);
        lemma_concat_prefix_parts(
            da,
            a[0].0.encoding() + spec_footer_entries(a.drop_first(), a[0].1 as int),
            s,
        );
        lemma_concat_prefix_parts(
            db,
            b[0].0.encoding() + spec_footer_entries(b.drop_first(), b[0].1 as int),
            s,
        );
        assert(spec_footer_entries(a, prev) =~= da + (a[0].0.encoding() + spec_footer_entries(
            a.drop_first(),
            a[0].1 as int,
        )));
        assert(spec_footer_entries(b, prev) =~= db + (b[0].0.encoding() + spec_footer_entries(
            b.drop_first(),
            b[0].1 as int,
        )));
        if da.len() <= db.len() {
            lemma_common_prefixes(da, db, s);
        } else {
            lemma_common_prefixes(db, da, s);
        }
        lemma_vint_prefix_free((a[0].1 - prev) as nat, (b[0].1 - prev) as nat);
        lemma_vint_prefix_free((b[0].1 - prev) as nat, (a[0].1 - prev) as nat);
        assert(a[0].1 == b[0].1);
        let s2 = s.skip(da.len() as int);
        lemma_concat_prefix_parts(
            a[0].0.encoding(),
            spec_footer_entries(a.drop_first(), a[0].1 as int),
            s2,
        );
        lemma_concat_prefix_parts(
            b[0].0.encoding(),
            spec_footer_entries(b.drop_first(), b[0].1 as int),
            s2,
        );
        if a[0].0.encoding().len() <= b[0].0.encoding().len() {
            lemma_common_prefixes(a[0].0.encoding(), b[0].0.encoding(), s2);
            FileAddr::lemma_prefix_free(a[0].0, b[0].0);
        } else {
            lemma_common_prefixes(b[0].0.encoding(), a[0].0.encoding(), s2);
            FileAddr::lemma_prefix_free(b[0].0, a[0].0);
        }
        FileAddr::lemma_injective(a[0].0, b[0].0);
        assert(a[0].0 == b[0].0);
        assert(a[0] == b[0]);
        let s3 = s2.skip(a[0].0.encoding().len() as int);
        assert(spec_footer_entries(a.drop_first(), a[0].1 as int).is_prefix_of(s3));
        assert(spec_footer_entries(b.drop_first(), b[0].1 as int).is_prefix_of(s3)) by {
            assert(b[0].0.encoding() == a[0].0.encoding());
        }
        assert(spec_offsets_from(a.drop_first(), a[0].1 as int)) by {
            assert forall|i: int| 0 <= i < a.drop_first().len() implies a[0].1 <= (
            #[trigger] a.drop_first()[i]).1 by {
                assert(a.drop_first()[i] == a[i + 1]);
                assert(a[0].1 <= a[i + 1].1);
            }
        }
        assert(spec_offsets_from(b.drop_first(), b[0].1 as int)) by {
            assert forall|i: int| 0 <= i < b.drop_first().len() implies b[0].1 <= (
            #[trigger] b.drop_first()[i]).1 by {
                assert(b.drop_first()[i] == b[i + 1]);
                assert(b[0].1 <= b[i + 1].1);
            }
        }
        lemma_footer_entries_agree(a.drop_first(), b.drop_first(), a[0].1 as int, s3);
        assert forall|i: int| 0 <= i < a.len() implies a[i] == b[i] by {
            if i > 0 {
                assert(a.drop_first()[i - 1] == b.drop_first()[i - 1]);
            }
        }
        assert(b.skip(a.len() as int) =~= b.drop_first().skip(a.len() - 1));
        assert(spec_last_offset(a, prev) == spec_last_offset(a.drop_first(), a[0].1 as int)) by {
            if a.len() > 1 {
                assert(a.drop_first().last() == a.last());
            }
        }
        assert(spec_footer_entries(b, prev) =~= spec_footer_entries(a, prev)
            + spec_footer_entries(b.skip(a.len() as int), spec_last_offset(a, prev)));
    }
}

/// The byte range of each segment, given the segment start offsets and the
/// end `data_len` of the data area: a segment ends where the next begins,
/// the last at `data_len`.
pub open spec fn spec_ranges(offsets: Seq<(FileAddr, u64)>, data_len: int) -> Seq<
    (FileAddr, usize, usize),
> {
    Seq::new(
        offsets.len(),
        |i: int|
            (
                offsets[i].0,
                offsets[i].1 as usize,
                if i + 1 < offsets.len() {
                    offsets[i + 1].1 as usize
                } else {
                    data_len as usize
                },
            ),
    )
}

/// Whether `data` is the composite file with data area `prefix` and
/// segments starting at `offsets`.
pub open spec fn spec_is_composite_of(
    data: Seq<u8>,
    prefix: Seq<u8>,
    offsets: Seq<(FileAddr, u64)>,
) -> bool {
    &&& spec_offsets_wf(offsets, prefix.len() as int)
    &&& spec_footer_body(offsets).len() <= u32::MAX
    &&& data == prefix + spec_footer(offsets)
}

/// Whether `data` is a well-formed composite file.
pub open spec fn spec_is_composite(data: Seq<u8>) -> bool {
    exists|prefix: Seq<u8>, offsets: Seq<(FileAddr, u64)>|
        spec_is_composite_of(data, prefix, offsets)
}

/// A file produced by the writer is a well-formed composite file: the bytes
/// of `close` decompose into the written data area and the written segment
/// starts, so `open` recovers exactly the written directory.
pub proof fn lemma_close_open_round_trip(data: Seq<u8>, offsets: Seq<(FileAddr, u64)>)
    requires
        spec_offsets_wf(offsets, data.len() as int),
        spec_footer_body(offsets).len() <= u32::MAX,
    ensures
        spec_is_composite_of(data + spec_footer(offsets), data, offsets),
        spec_is_composite(data + spec_footer(offsets)),
{
    assert(spec_is_composite_of(data + spec_footer(offsets), data, offsets));
}

/// What fixes a decomposition of a composite file: the trailing length
/// field pins the footer body, and with it the data area.
proof fn lemma_decomposition_frame(data: Seq<u8>, prefix: Seq<u8>, offsets: Seq<(FileAddr, u64)>)
    requires
        spec_is_composite_of(data, prefix, offsets),
    ensures
        prefix.len() + 5 <= data.len(),
        prefix.len() + spec_footer_body(offsets).len() + 4 == data.len(),
        data.subrange(data.len() - 4, data.len() as int) == spec_u32_to_le_bytes(
            spec_footer_body(offsets).len() as u32,
        ),
        data.subrange(prefix.len() as int, data.len() - 4) == spec_footer_body(offsets),
        prefix == data.subrange(0, prefix.len() as int),
        1 + 6 * offsets.len() <= spec_footer_body(offsets).len(),
{
    lemma_vint_encoding_first_byte(offsets.len());
    lemma_footer_entries_len_lower(offsets, 0);
    vstd::bytes::lemma_auto_spec_u32_to_from_le_bytes();
    let body = spec_footer_body(offsets);
    assert(spec_u32_to_le_bytes(body.len() as u32).len() == 4);
    assert(data.subrange(data.len() - 4, data.len() as int) =~= spec_u32_to_le_bytes(
        body.len() as u32,
    ));
    assert(data.subrange(prefix.len() as int, data.len() - 4) =~= body);
    assert(prefix =~= data.subrange(0, prefix.len() as int));
}

/// What the reader looks like in contracts: the data area's bytes and the
/// directory of keys with their byte ranges.
pub ghost struct CompositeFileView {
    /// The data area: every segment's bytes, in write order.
    pub data: Seq<u8>,
    /// Each key with the half-open byte range of its segment.
    pub index: Seq<(FileAddr, usize, usize)>,
}

/// A sealed composite file: the data area and the directory parsed from the
/// footer, immutable from here on.
#[derive(Clone, Debug)]
pub struct CompositeFile {
    data: Vec<u8>,
    index: Vec<(FileAddr, usize, usize)>,
}

impl View for CompositeFile {
    type V = CompositeFileView;

    closed spec fn view(&self) -> CompositeFileView {
        CompositeFileView { data: self.data@, index: self.index@ }
    }
}

impl CompositeFile {
    /// Well-formedness: every range lies in the data area and no key occurs
    /// twice.
    pub open spec fn wf(self) -> bool {
        &&& forall|k: int|
            0 <= k < self@.index.len() ==> ((#[trigger] self@.index[k]).1 <= self@.index[k].2
                <= self@.data.len())
        &&& forall|i: int, j: int|
            0 <= i < j < self@.index.len() ==> (#[trigger] self@.index[i]).0 != (
            #[trigger] self@.index[j]).0
    }

    /// A valid composite file that stores no segments.
    pub fn empty() -> (r: Self)
        ensures
            r.wf(),
            r@.data == Seq::<u8>::empty(),
            r@.index == Seq::<(FileAddr, usize, usize)>::empty(),
    {
        CompositeFile { data: Vec::new(), index: Vec::new() }
    }

    /// Opens a composite file: reads the trailing footer length, parses the
    /// footer, and rebuilds each segment's byte range. Succeeds exactly on
    /// the well-formed composite files, and recovers exactly the directory
    /// that was written.
    pub fn open(data: &[u8]) -> (res: Result<Self, DeserializeError>)
        ensures
            res is Ok ==> spec_is_composite(data@),
            (match res {
                Ok(f) => f.wf(),
                Err(e) => e == DeserializeError::CorruptedFooter,
            }),
            forall|prefix: Seq<u8>, offsets: Seq<(FileAddr, u64)>|
                spec_is_composite_of(data@, prefix, offsets) ==> (res matches Ok(f) && f@.data
                    == prefix && f@.index == spec_ranges(offsets, prefix.len() as int)),
    {
        proof {
            vstd::slice::axiom_spec_len(data);
        }
        let n = data.len();
        if n < 4 {
            proof {
                assert forall|prefix: Seq<u8>, offsets: Seq<(FileAddr, u64)>|
                    !spec_is_composite_of(data@, prefix, offsets) by {
                    if spec_is_composite_of(data@, prefix, offsets) {
                        lemma_decomposition_frame(data@, prefix, offsets);
                    }
                }
            }
            return Err(DeserializeError::CorruptedFooter);
        }
        let mut tail_pos: usize = n - 4;
        let footer_len_u32 = match u32::deserialize(data, &mut tail_pos) {
            Ok(v) => v,
            Err(_) => {
                proof {
                    vstd::bytes::lemma_auto_spec_u32_to_from_le_bytes();
                    let tail = data@.skip(n - 4);
                    let w = spec_u32_from_le_bytes(tail);
                    assert(tail.len() == 4);
                    assert(spec_u32_to_le_bytes(w) == tail);
                    assert(w.encoding().is_prefix_of(tail)) by {
                        assert(w.encoding() =~= tail.subrange(0, 4));
                    }
                    assert(false);
                }
                return Err(DeserializeError::CorruptedFooter);
            },
        };
        proof {
            vstd::bytes::lemma_auto_spec_u32_to_from_le_bytes();
            assert(spec_u32_to_le_bytes(footer_len_u32).len() == 4);
            assert(spec_u32_to_le_bytes(footer_len_u32) == data@.subrange(n - 4, n as int));
        }
        if footer_len_u32 as usize > n - 4 {
            proof {
                assert forall|prefix: Seq<u8>, offsets: Seq<(FileAddr, u64)>|
                    !spec_is_composite_of(data@, prefix, offsets) by {
                    if spec_is_composite_of(data@, prefix, offsets) {
                        lemma_footer_len_agrees(data@, prefix, offsets, footer_len_u32);
                    }
                }
            }
            return Err(DeserializeError::CorruptedFooter);
        }
        let footer_len = footer_len_u32 as usize;
        let footer_start = n - 4 - footer_len;
        let body = vstd::slice::slice_subrange(data, footer_start, n - 4);
        proof {
            vstd::slice::axiom_spec_len(body);
            assert forall|prefix: Seq<u8>, offsets: Seq<(FileAddr, u64)>|
                spec_is_composite_of(data@, prefix, offsets) implies (prefix.len() == footer_start
                && body@ == spec_footer_body(offsets) && prefix == data@.subrange(
                0,
                footer_start as int,
            )) by {
                lemma_footer_len_agrees(data@, prefix, offsets, footer_len_u32);
                lemma_decomposition_frame(data@, prefix, offsets);
                assert(body@ =~= spec_footer_body(offsets));
            }
        }
        let mut pos: usize = 0;
        let count = match VInt::deserialize(body, &mut pos) {
            Ok(v) => v,
            Err(_) => {
                proof {
                    assert forall|prefix: Seq<u8>, offsets: Seq<(FileAddr, u64)>|
                        !spec_is_composite_of(data@, prefix, offsets) by {
                        if spec_is_composite_of(data@, prefix, offsets) {
                            lemma_decomposition_frame(data@, prefix, offsets);
                            lemma_footer_entries_len_lower(offsets, 0);
                            let c = VInt(offsets.len() as u64);
                            assert(c.encoding().is_prefix_of(body@.skip(0))) by {
                                assert(body@.skip(0) =~= body@);
                                assert(body@.is_prefix_of(body@)) by {
                                    assert(body@ =~= body@.subrange(0, body@.len() as int));
                                }
                                lemma_concat_prefix_parts(
                                    spec_vint_encoding(offsets.len()),
                                    spec_footer_entries(offsets, 0),
                                    body@,
                                );
                            }
                            assert(false);
                        }
                    }
                }
                return Err(DeserializeError::CorruptedFooter);
            },
        };
        let count64 = count.val();
        let ghost entries_start = pos as int;
        let mut parsed: Vec<(FileAddr, u64)> = Vec::new();
        let mut prev_offset: u64 = 0;
        let mut k: u64 = 0;
        proof {
            assert(body@.subrange(entries_start, pos as int) =~= spec_footer_entries(parsed@, 0));
        }
        while k < count64
            invariant
                k == parsed@.len(),
                k <= count64,
                count.0 == count64,
                0 <= entries_start <= pos <= body@.len(),
                body@.subrange(0, entries_start) == spec_vint_encoding(count64 as nat),
                body@.subrange(entries_start, pos as int) == spec_footer_entries(parsed@, 0),
                spec_offsets_from(parsed@, 0),
                prev_offset == spec_last_offset(parsed@, 0),
                forall|i: int|
                    0 <= i < parsed@.len() ==> (#[trigger] parsed@[i]).1 <= footer_start,
                footer_start + 4 + footer_len_u32 == data@.len(),
                forall|prefix: Seq<u8>, offsets: Seq<(FileAddr, u64)>|
                    spec_is_composite_of(data@, prefix, offsets) ==> (prefix.len() == footer_start
                        && body@ == spec_footer_body(offsets) && prefix == data@.subrange(
                        0,
                        footer_start as int,
                    )),
            decreases count64 - k,
        {
            let ghost old_parsed = parsed@;
            let ghost old_pos = pos as int;
            let delta = match VInt::deserialize(body, &mut pos) {
                Ok(v) => v,
                Err(_) => {
                    proof {
                        assert forall|prefix: Seq<u8>, offsets: Seq<(FileAddr, u64)>|
                            !spec_is_composite_of(data@, prefix, offsets) by {
                            if spec_is_composite_of(data@, prefix, offsets) {
                                lemma_frame_entries(
                                    offsets,
                                    old_parsed,
                                    body@,
                                    count64,
                                    entries_start,
                                    old_pos,
                                );
                                let last = spec_last_offset(old_parsed, 0);
                                let tail = offsets.skip(k as int);
                                lemma_tail_first_entry(offsets, old_parsed, body@, old_pos, last);
                                let c = VInt((tail[0].1 - last) as u64);
                                assert(c.encoding().is_prefix_of(body@.skip(old_pos)));
                                assert(false);
                            }
                        }
                    }
                    return Err(DeserializeError::CorruptedFooter);
                },
            };
            let delta64 = delta.val();
            proof {
                assert forall|prefix: Seq<u8>, offsets: Seq<(FileAddr, u64)>|
                    spec_is_composite_of(data@, prefix, offsets) implies (offsets.skip(
                    k as int,
                ).len() > 0 && offsets.skip(k as int)[0].1 == spec_last_offset(old_parsed, 0)
                    + delta64 && (forall|i: int| 0 <= i < k ==> offsets[i] == old_parsed[i])
                    && offsets.len() == count64) by {
                    lemma_frame_entries(offsets, old_parsed, body@, count64, entries_start, old_pos);
                    let last = spec_last_offset(old_parsed, 0);
                    let tail = offsets.skip(k as int);
                    lemma_tail_first_entry(offsets, old_parsed, body@, old_pos, last);
                    let d2 = tail[0].1 - last;
                    let c = VInt(d2 as u64);
                    assert(c.encoding().is_prefix_of(body@.skip(old_pos)));
                    assert(delta.encoding().is_prefix_of(body@.skip(old_pos))) by {
                        assert(delta.encoding() =~= body@.subrange(old_pos, pos as int));
                        assert(delta.encoding() =~= body@.skip(old_pos).subrange(
                            0,
                            delta.encoding().len() as int,
                        ));
                    }
                    if c.encoding().len() <= delta.encoding().len() {
                        lemma_common_prefixes(c.encoding(), delta.encoding(), body@.skip(old_pos));
                    } else {
                        lemma_common_prefixes(delta.encoding(), c.encoding(), body@.skip(old_pos));
                    }
                    lemma_vint_prefix_free(d2 as nat, delta64 as nat);
                    lemma_vint_prefix_free(delta64 as nat, d2 as nat);
                }
            }
            if delta64 > u64::MAX - prev_offset {
                proof {
                    assert forall|prefix: Seq<u8>, offsets: Seq<(FileAddr, u64)>|
                        !spec_is_composite_of(data@, prefix, offsets) by {
                        if spec_is_composite_of(data@, prefix, offsets) {
                            assert(offsets.skip(k as int)[0].1 <= u64::MAX);
                        }
                    }
                }
                return Err(DeserializeError::CorruptedFooter);
            }
            let offset = prev_offset + delta64;
            if offset > footer_start as u64 {
                proof {
                    assert forall|prefix: Seq<u8>, offsets: Seq<(FileAddr, u64)>|
                        !spec_is_composite_of(data@, prefix, offsets) by {
                        if spec_is_composite_of(data@, prefix, offsets) {
                            let tail = offsets.skip(k as int);
                            assert(tail[0] == offsets[k as int]);
                            assert(offsets[k as int].1 <= prefix.len());
                        }
                    }
                }
                return Err(DeserializeError::CorruptedFooter);
            }
            let ghost mid_pos = pos as int;
            let file_addr = match FileAddr::deserialize(body, &mut pos) {
                Ok(fa) => fa,
                Err(_) => {
                    proof {
                        assert forall|prefix: Seq<u8>, offsets: Seq<(FileAddr, u64)>|
                            !spec_is_composite_of(data@, prefix, offsets) by {
                            if spec_is_composite_of(data@, prefix, offsets) {
                                lemma_frame_entries(
                                    offsets,
                                    old_parsed,
                                    body@,
                                    count64,
                                    entries_start,
                                    old_pos,
                                );
                                let last = spec_last_offset(old_parsed, 0);
                                let tail = offsets.skip(k as int);
                                lemma_tail_first_entry(offsets, old_parsed, body@, old_pos, last);
                                let d2 = tail[0].1 - last;
                                assert(d2 == delta64);
                                assert(spec_vint_encoding(d2 as nat) == delta.encoding());
                                assert(tail[0].0.encoding().is_prefix_of(body@.skip(mid_pos))) by {
                                    let dl = delta.encoding().len() as int;
                                    assert(body@.skip(old_pos).skip(dl) =~= body@.skip(mid_pos));
                                    lemma_concat_prefix_parts(
                                        spec_vint_encoding(d2 as nat),
                                        tail[0].0.encoding() + spec_footer_entries(
                                            tail.drop_first(),
                                            tail[0].1 as int,
                                        ),
                                        body@.skip(old_pos),
                                    );
                                    lemma_concat_prefix_parts(
                                        tail[0].0.encoding(),
                                        spec_footer_entries(tail.drop_first(), tail[0].1 as int),
                                        body@.skip(old_pos).skip(dl),
                                    );
                                }
                                assert(false);
                            }
                        }
                    }
                    return Err(DeserializeError::CorruptedFooter);
                },
            };
            proof {
                let this_entry = spec_vint_encoding(delta64 as nat) + file_addr.encoding();
                assert(spec_last_offset(old_parsed, 0) <= offset);
                lemma_footer_entries_snoc(old_parsed, (file_addr, offset), 0);
                assert(body@.subrange(entries_start, pos as int) =~= spec_footer_entries(
                    old_parsed.push((file_addr, offset)),
                    0,
                ));
                assert forall|i: int, j: int|
                    0 <= i <= j < old_parsed.push((file_addr, offset)).len() implies (
                #[trigger] old_parsed.push((file_addr, offset))[i]).1 <= (#[trigger] old_parsed.push(
                    (file_addr, offset),
                )[j]).1 by {
                    let np = old_parsed.push((file_addr, offset));
                    if j < old_parsed.len() {
                    } else {
                        if i < old_parsed.len() {
                            assert(np[i] == old_parsed[i]);
                            if old_parsed.len() > 0 {
                                assert(old_parsed[i].1 <= old_parsed[old_parsed.len() - 1].1);
                            }
                        }
                    }
                }
            }
            parsed.push((file_addr, offset));
            prev_offset = offset;
            k = k + 1;
            proof {
                if parsed@.len() > 0 {
                    assert(spec_last_offset(parsed@, 0) == parsed@.last().1);
                }
            }
        }
        if pos != body.len() {
            proof {
                assert forall|prefix: Seq<u8>, offsets: Seq<(FileAddr, u64)>|
                    !spec_is_composite_of(data@, prefix, offsets) by {
                    if spec_is_composite_of(data@, prefix, offsets) {
                        lemma_frame_entries(
                            offsets,
                            parsed@,
                            body@,
                            count64,
                            entries_start,
                            pos as int,
                        );
                        assert(offsets.skip(k as int) =~= Seq::<(FileAddr, u64)>::empty());
                        assert(spec_footer_entries(
                            offsets.skip(k as int),
                            spec_last_offset(parsed@, 0),
                        ) == Seq::<u8>::empty());
                        assert(body@.skip(pos as int).len() == 0);
                    }
                }
            }
            return Err(DeserializeError::CorruptedFooter);
        }
        if has_duplicate_key(&parsed) {
            proof {
                let (wi, wj) = choose|wi: int, wj: int|
                    0 <= wi < wj < parsed@.len() && (#[trigger] parsed@[wi]).0 == (
                    #[trigger] parsed@[wj]).0;
                assert forall|prefix: Seq<u8>, offsets: Seq<(FileAddr, u64)>|
                    !spec_is_composite_of(data@, prefix, offsets) by {
                    if spec_is_composite_of(data@, prefix, offsets) {
                        lemma_frame_entries(
                            offsets,
                            parsed@,
                            body@,
                            count64,
                            entries_start,
                            pos as int,
                        );
                        assert(offsets[wi] == parsed@[wi]);
                        assert(offsets[wj] == parsed@[wj]);
                    }
                }
            }
            return Err(DeserializeError::CorruptedFooter);
        }
        let index = build_index(&parsed, footer_start);
        let file_data = vstd::slice::slice_to_vec(vstd::slice::slice_subrange(
            data,
            0,
            footer_start,
        ));
        let result = CompositeFile { data: file_data, index };
        proof {
            let prefix0 = data@.subrange(0, footer_start as int);
            assert(spec_is_composite_of(data@, prefix0, parsed@)) by {
                assert(spec_footer_body(parsed@) =~= body@) by {
                    assert(body@ =~= body@.subrange(0, entries_start) + body@.subrange(
                        entries_start,
                        pos as int,
                    ));
                }
                assert(spec_footer(parsed@) =~= body@ + data@.subrange(
                    data@.len() - 4,
                    data@.len() as int,
                )) by {
                    vstd::bytes::lemma_auto_spec_u32_to_from_le_bytes();
                    assert(spec_u32_to_le_bytes(footer_len_u32) == data@.subrange(
                        data@.len() - 4,
                        data@.len() as int,
                    ));
                }
                assert(data@ =~= prefix0 + spec_footer(parsed@));
                assert(spec_offsets_wf(parsed@, prefix0.len() as int));
            }
            assert forall|prefix: Seq<u8>, offsets: Seq<(FileAddr, u64)>|
                spec_is_composite_of(data@, prefix, offsets) implies (prefix == prefix0 && offsets
                == parsed@) by {
                lemma_frame_entries(offsets, parsed@, body@, count64, entries_start, pos as int);
                assert(offsets =~= parsed@);
            }
            assert(result.wf()) by {
                assert forall|k2: int| 0 <= k2 < result@.index.len() implies ((
                #[trigger] result@.index[k2]).1 <= result@.index[k2].2 <= result@.data.len()) by {
                    assert(result@.index[k2] == spec_ranges(parsed@, footer_start as int)[k2]);
                    if k2 + 1 < parsed@.len() {
                        assert(parsed@[k2].1 <= parsed@[k2 + 1].1);
                    }
                }
            }
        }
        Ok(result)
    }

    /// The bytes of `field`'s segment (sub-stream 0), or nothing when that
    /// key was never written.
    pub fn open_read(&self, field: Field) -> (r: Option<Vec<u8>>)
        requires
            self.wf(),
        ensures
            (match r {
                Some(bytes) => exists|k: int|
                    0 <= k < self@.index.len() && (#[trigger] self@.index[k]).0 == (FileAddr {
                        field,
                        idx: 0,
                    }) && bytes@ == self@.data.subrange(
                        self@.index[k].1 as int,
                        self@.index[k].2 as int,
                    ),
                None => forall|k: int|
                    0 <= k < self@.index.len() ==> (#[trigger] self@.index[k]).0 != (FileAddr {
                        field,
                        idx: 0,
                    }),
            }),
    {
        self.open_read_with_idx(field, 0)
    }

    /// The bytes of `field`'s sub-stream `idx`, or nothing when that key
    /// was never written.
    pub fn open_read_with_idx(&self, field: Field, idx: usize) -> (r: Option<Vec<u8>>)
        requires
            self.wf(),
        ensures
            (match r {
                Some(bytes) => exists|k: int|
                    0 <= k < self@.index.len() && (#[trigger] self@.index[k]).0 == (FileAddr {
                        field,
                        idx,
                    }) && bytes@ == self@.data.subrange(
                        self@.index[k].1 as int,
                        self@.index[k].2 as int,
                    ),
                None => forall|k: int|
                    0 <= k < self@.index.len() ==> (#[trigger] self@.index[k]).0 != (FileAddr {
                        field,
                        idx,
                    }),
            }),
    {
        let target = FileAddr::new(field, idx);
        let mut k: usize = 0;
        while k < self.index.len()
            invariant
                self.wf(),
                k <= self@.index.len(),
                target == (FileAddr { field, idx }),
                forall|i: int| 0 <= i < k ==> (#[trigger] self@.index[i]).0 != target,
            decreases self@.index.len() - k,
        {
            let (fa, start, end) = self.index[k];
            if fa == target {
                proof {
                    vstd::std_specs::vec::axiom_spec_len(&self.data);
                }
                let s = vstd::slice::slice_subrange(self.data.as_slice(), start, end);
                let bytes = vstd::slice::slice_to_vec(s);
                proof {
                    assert(self@.index[k as int].0 == target);
                }
                return Some(bytes);
            }
            k = k + 1;
        }
        None
    }

    /// How many bytes each written segment occupies, by key.
    pub fn space_usage(&self) -> (r: Vec<(FileAddr, usize)>)
        requires
            self.wf(),
        ensures
            r@.len() == self@.index.len(),
            forall|k: int|
                0 <= k < r@.len() ==> (#[trigger] r@[k]) == (
                    self@.index[k].0,
                    (self@.index[k].2 - self@.index[k].1) as usize,
                ),
    {
        let mut r: Vec<(FileAddr, usize)> = Vec::new();
        let mut k: usize = 0;
        while k < self.index.len()
            invariant
                self.wf(),
                k <= self@.index.len(),
                r@.len() == k,
                forall|i: int|
                    0 <= i < k ==> (#[trigger] r@[i]) == (
                        self@.index[i].0,
                        (self@.index[i].2 - self@.index[i].1) as usize,
                    ),
            decreases self@.index.len() - k,
        {
            let (fa, start, end) = self.index[k];
            r.push((fa, end - start));
            k = k + 1;
        }
        r
    }
}

/// Whether any two recorded segments share a key.
fn has_duplicate_key(entries: &Vec<(FileAddr, u64)>) -> (r: bool)
    ensures
        r <==> (exists|i: int, j: int|
            0 <= i < j < entries@.len() && (#[trigger] entries@[i]).0 == (
            #[trigger] entries@[j]).0),
{
    let mut a: usize = 0;
    while a < entries.len()
        invariant
            a <= entries@.len(),
            forall|i: int, j: int|
                0 <= i < j < entries@.len() && i < a ==> (#[trigger] entries@[i]).0 != (
                #[trigger] entries@[j]).0,
        decreases entries@.len() - a,
    {
        let mut b: usize = a + 1;
        while b < entries.len()
            invariant
                a < b || b == a + 1,
                a + 1 <= b <= entries@.len() || (entries@.len() <= a + 1 && b == a + 1),
                a < entries@.len(),
                forall|j: int| a < j < b ==> (#[trigger] entries@[j]).0 != entries@[a as int].0,
            decreases entries@.len() - b,
        {
            if entries[a].0 == entries[b].0 {
                return true;
            }
            b = b + 1;
        }
        a = a + 1;
    }
    false
}

/// The directory the given segment starts describe over a data area of
/// `end` bytes.
fn build_index(entries: &Vec<(FileAddr, u64)>, end: usize) -> (r: Vec<(FileAddr, usize, usize)>)
    requires
        forall|i: int| 0 <= i < entries@.len() ==> (#[trigger] entries@[i]).1 <= end,
    ensures
        r@ == spec_ranges(entries@, end as int),
    {
    let mut r: Vec<(FileAddr, usize, usize)> = Vec::new();
    let mut j: usize = 0;
    proof {
        assert(r@ =~= spec_ranges(entries@, end as int).take(0));
    }
    while j < entries.len()
        invariant
            j <= entries@.len(),
            forall|i: int| 0 <= i < entries@.len() ==> (#[trigger] entries@[i]).1 <= end,
            r@ == spec_ranges(entries@, end as int).take(j as int),
        decreases entries@.len() - j,
    {
        let (fa, off) = entries[j];
        let seg_end = if j + 1 < entries.len() {
            entries[j + 1].1 as usize
        } else {
            end
        };
        r.push((fa, off as usize, seg_end));
        proof {
            assert(r@ =~= spec_ranges(entries@, end as int).take(j + 1));
        }
        j = j + 1;
    }
    proof {
        assert(r@ =~= spec_ranges(entries@, end as int));
    }
    r
}

/// Any decomposition's footer-body length is named by the file's trailing
/// four bytes.
proof fn lemma_footer_len_agrees(
    data: Seq<u8>,
    prefix: Seq<u8>,
    offsets: Seq<(FileAddr, u64)>,
    flen: u32,
)
    requires
        spec_is_composite_of(data, prefix, offsets),
        data.len() >= 4,
        spec_u32_to_le_bytes(flen) == data.subrange(data.len() - 4, data.len() as int),
    ensures
        spec_footer_body(offsets).len() == flen,
        prefix.len() == data.len() - 4 - flen,
{
    vstd::bytes::lemma_auto_spec_u32_to_from_le_bytes();
    lemma_decomposition_frame(data, prefix, offsets);
    let blen = spec_footer_body(offsets).len();
    assert(spec_u32_to_le_bytes(flen) == spec_u32_to_le_bytes(blen as u32));
    assert(spec_u32_from_le_bytes(spec_u32_to_le_bytes(flen)) == flen);
    assert(spec_u32_from_le_bytes(spec_u32_to_le_bytes(blen as u32)) == blen as u32);
}

/// Under any decomposition of the file, the entries parsed so far agree
/// with the decomposition's first entries, and its remaining entries are
/// exactly the bytes still to parse.
proof fn lemma_frame_entries(
    offsets: Seq<(FileAddr, u64)>,
    parsed: Seq<(FileAddr, u64)>,
    body: Seq<u8>,
    count64: u64,
    entries_start: int,
    pos: int,
)
    requires
        body == spec_footer_body(offsets),
        spec_offsets_from(offsets, 0),
        0 <= entries_start <= pos <= body.len(),
        body.subrange(0, entries_start) == spec_vint_encoding(count64 as nat),
        body.subrange(entries_start, pos) == spec_footer_entries(parsed, 0),
        spec_offsets_from(parsed, 0),
        parsed.len() <= count64,
    ensures
        offsets.len() == count64,
        parsed.len() <= offsets.len(),
        forall|i: int| 0 <= i < parsed.len() ==> offsets[i] == parsed[i],
        spec_footer_entries(offsets.skip(parsed.len() as int), spec_last_offset(parsed, 0))
            == body.skip(pos),
{
    assert(body.is_prefix_of(body)) by {
        assert(body =~= body.subrange(0, body.len() as int));
    }
    lemma_concat_prefix_parts(spec_vint_encoding(offsets.len()), spec_footer_entries(offsets, 0), body);
    assert(spec_vint_encoding(count64 as nat).is_prefix_of(body)) by {
        assert(spec_vint_encoding(count64 as nat) =~= body.subrange(
            0,
            spec_vint_encoding(count64 as nat).len() as int,
        ));
    }
    if spec_vint_encoding(offsets.len()).len() <= spec_vint_encoding(count64 as nat).len() {
        lemma_common_prefixes(
            spec_vint_encoding(offsets.len()),
            spec_vint_encoding(count64 as nat),
            body,
        );
    } else {
        lemma_common_prefixes(
            spec_vint_encoding(count64 as nat),
            spec_vint_encoding(offsets.len()),
            body,
        );
    }
    lemma_vint_prefix_free(offsets.len(), count64 as nat);
    lemma_vint_prefix_free(count64 as nat, offsets.len());
    assert(offsets.len() == count64);
    assert(spec_vint_encoding(offsets.len()) == body.subrange(0, entries_start));
    let s = body.skip(entries_start);
    assert(spec_footer_entries(offsets, 0) =~= s);
    assert(spec_footer_entries(offsets, 0).is_prefix_of(s)) by {
        assert(spec_footer_entries(offsets, 0) =~= s.subrange(
            0,
            spec_footer_entries(offsets, 0).len() as int,
        ));
    }
    assert(spec_footer_entries(parsed, 0).is_prefix_of(s)) by {
        assert(spec_footer_entries(parsed, 0) =~= s.subrange(
            0,
            spec_footer_entries(parsed, 0).len() as int,
        ));
    }
    lemma_footer_entries_agree(parsed, offsets, 0, s);
    assert(spec_footer_entries(offsets.skip(parsed.len() as int), spec_last_offset(parsed, 0))
        =~= body.skip(pos)) by {
        let head = spec_footer_entries(parsed, 0);
        let rest = spec_footer_entries(
            offsets.skip(parsed.len() as int),
            spec_last_offset(parsed, 0),
        );
        assert(spec_footer_entries(offsets, 0) == head + rest);
        assert(head.len() == pos - entries_start);
    }
}

/// When entries remain, the first of them puts one delta and one key at the
/// head of the bytes still to parse.
proof fn lemma_tail_first_entry(
    offsets: Seq<(FileAddr, u64)>,
    parsed: Seq<(FileAddr, u64)>,
    body: Seq<u8>,
    pos: int,
    last: int,
)
    requires
        parsed.len() < offsets.len(),
        0 <= pos <= body.len(),
        last == spec_last_offset(parsed, 0),
        spec_offsets_from(offsets, 0),
        forall|i: int| 0 <= i < parsed.len() ==> offsets[i] == parsed[i],
        spec_footer_entries(offsets.skip(parsed.len() as int), last) == body.skip(pos),
    ensures
        0 <= last <= offsets.skip(parsed.len() as int)[0].1,
        spec_vint_encoding((offsets.skip(parsed.len() as int)[0].1 - last) as nat).is_prefix_of(
            body.skip(pos),
        ),
{
    let tail = offsets.skip(parsed.len() as int);
    assert(tail[0] == offsets[parsed.len() as int]);
    if parsed.len() > 0 {
        assert(parsed.last() == offsets[parsed.len() - 1]);
        assert(offsets[parsed.len() - 1].1 <= offsets[parsed.len() as int].1);
    }
    let d = spec_vint_encoding((tail[0].1 - last) as nat);
    assert(spec_footer_entries(tail, last) == d + (tail[0].0.encoding() + spec_footer_entries(
        tail.drop_first(),
        tail[0].1 as int,
    ))) by {
        assert(spec_footer_entries(tail, last) =~= d + (tail[0].0.encoding()
            + spec_footer_entries(tail.drop_first(), tail[0].1 as int)));
    }
    lemma_concat_prefix_parts(
        d,
        tail[0].0.encoding() + spec_footer_entries(tail.drop_first(), tail[0].1 as int),
        body.skip(pos),
    );
}


} // verus!
