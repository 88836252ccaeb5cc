use segstore::composite_file::{CompositeFile, CompositeWrite, FileAddr};
use segstore::schema::Field;
use segstore::serialize::{BinarySerializable, DeserializeError};
use segstore::vint::VInt;

fn vint_bytes(value: u64) -> Vec<u8> {
    let mut buf = Vec::new();
    VInt(value).serialize(&mut buf);
    buf
}

#[test]
fn test_composite_file() {
    let file_bytes = {
        let mut composite_write = CompositeWrite::wrap();
        composite_write.for_field(Field::from_field_id(0u32));
        composite_write.write_bytes(&vint_bytes(32431123u64));
        composite_write.for_field(Field::from_field_id(4u32));
        composite_write.write_bytes(&vint_bytes(2));
        composite_write.close()
    };
    {
        let composite_file = CompositeFile::open(&file_bytes).unwrap();
        {
            let file0 = composite_file.open_read(Field::from_field_id(0u32)).unwrap();
            let mut pos = 0usize;
            let payload_0 = VInt::deserialize(&file0, &mut pos).unwrap().val();
            assert_eq!(file0.len() - pos, 0);
            assert_eq!(payload_0, 32431123u64);
        }
        {
            let file4 = composite_file.open_read(Field::from_field_id(4u32)).unwrap();
            let mut pos = 0usize;
            let payload_4 = VInt::deserialize(&file4, &mut pos).unwrap().val();
            assert_eq!(file4.len() - pos, 0);
            assert_eq!(payload_4, 2u64);
        }
    }
}

#[test]
fn test_composite_file_bug() {
    let file_bytes = {
        let mut composite_write = CompositeWrite::wrap();
        composite_write.for_field_with_idx(Field::from_field_id(1u32), 0);
        composite_write.write_bytes(&vint_bytes(32431123u64));
        composite_write.for_field_with_idx(Field::from_field_id(1u32), 1);
        composite_write.for_field_with_idx(Field::from_field_id(0u32), 0);
        composite_write.write_bytes(&vint_bytes(1_000_000));
        composite_write.close()
    };
    {
        let composite_file = CompositeFile::open(&file_bytes).unwrap();
        {
            let file = composite_file
                .open_read_with_idx(Field::from_field_id(1u32), 0)
                .unwrap();
            let mut pos = 0usize;
            let payload_0 = VInt::deserialize(&file, &mut pos).unwrap().val();
            assert_eq!(file.len() - pos, 0);
            assert_eq!(payload_0, 32431123u64);
        }
        {
            let file = composite_file
                .open_read_with_idx(Field::from_field_id(1u32), 1)
                .unwrap();
            assert_eq!(file.len(), 0);
        }
        {
            let file = composite_file
                .open_read_with_idx(Field::from_field_id(0u32), 0)
                .unwrap();
            assert_eq!(file.len(), 3);
        }
    }
}

#[test]
fn test_composite_file_absent_key() {
    let file_bytes = {
        let mut composite_write = CompositeWrite::wrap();
        composite_write.for_field(Field::from_field_id(3u32));
        composite_write.write_bytes(b"abc");
        composite_write.close()
    };
    let composite_file = CompositeFile::open(&file_bytes).unwrap();
    assert!(composite_file.open_read(Field::from_field_id(3u32)).is_some());
    assert!(composite_file.open_read(Field::from_field_id(7u32)).is_none());
    assert!(composite_file
        .open_read_with_idx(Field::from_field_id(3u32), 1)
        .is_none());
}

#[test]
fn test_composite_file_empty() {
    let composite_file = CompositeFile::empty();
    assert!(composite_file.open_read(Field::from_field_id(0u32)).is_none());

    // a written empty file holds zero segments and reopens fine
    let file_bytes = CompositeWrite::wrap().close();
    let reopened = CompositeFile::open(&file_bytes).unwrap();
    assert!(reopened.open_read(Field::from_field_id(0u32)).is_none());
}

#[test]
fn test_composite_file_rejects_overclaiming_footer() {
    // A footer that claims more segments than fit before the trailing
    // length field must be reported as corruption, not read out of bounds.
    let mut file_bytes = Vec::new();
    // footer body: segment count 200, then a single entry (delta 0, field
    // 0, idx 0)
    let mut body = Vec::new();
    VInt(200).serialize(&mut body);
    VInt(0).serialize(&mut body);
    0u32.serialize(&mut body);
    VInt(0).serialize(&mut body);
    let body_len = body.len() as u32;
    file_bytes.append(&mut body);
    body_len.serialize(&mut file_bytes);
    assert!(CompositeFile::open(&file_bytes).is_err());
}

#[test]
fn test_composite_file_rejects_truncated_file() {
    assert_eq!(
        CompositeFile::open(&[]).unwrap_err(),
        DeserializeError::CorruptedFooter
    );
    assert!(CompositeFile::open(&[1, 2, 3]).is_err());
    // a footer length pointing outside the file
    assert!(CompositeFile::open(&[0xff, 0xff, 0xff, 0x7f]).is_err());
}

#[test]
fn test_composite_file_space_usage() {
    let file_bytes = {
        let mut composite_write = CompositeWrite::wrap();
        composite_write.for_field(Field::from_field_id(1u32));
        composite_write.write_bytes(b"12345");
        composite_write.for_field(Field::from_field_id(2u32));
        composite_write.write_bytes(b"999");
        composite_write.close()
    };
    let composite_file = CompositeFile::open(&file_bytes).unwrap();
    let usage = composite_file.space_usage();
    assert_eq!(usage.len(), 2);
    assert_eq!(usage[0], (FileAddr::new(Field::from_field_id(1u32), 0), 5));
    assert_eq!(usage[1], (FileAddr::new(Field::from_field_id(2u32), 0), 3));
}
