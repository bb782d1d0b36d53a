use gar::archive::{ArchiveError, ArchivedFile};

/// Builds one raw record from explicit header fields and content bytes.
fn raw_record(name_field: &[u8], size_field: &str, ts_field: &str, contents: &[u8]) -> Vec<u8> {
    assert_eq!(name_field.len(), 100);
    assert_eq!(size_field.len(), 8);
    assert_eq!(ts_field.len(), 8);
    let mut out = Vec::new();
    out.extend_from_slice(name_field);
    out.extend_from_slice(size_field.as_bytes());
    out.extend_from_slice(ts_field.as_bytes());
    out.extend_from_slice(contents);
    out
}

/// A 100-byte name field: the given bytes, right-padded with nulls.
fn padded_name(name: &str) -> Vec<u8> {
    let mut field = name.as_bytes().to_vec();
    field.resize(100, 0);
    field
}

fn decode_all(mut data: Vec<u8>) -> Result<Vec<ArchivedFile>, ArchiveError> {
    let mut archive = Vec::new();
    ArchivedFile::from_archive(&mut data, &mut archive)?;
    Ok(archive)
}

#[test]
fn round_trip_two_files() {
    let a = ArchivedFile::new("a.txt".to_string(), b"hello".to_vec(), 1700000000).unwrap();
    let b = ArchivedFile::new("notes/second.md".to_string(), "déjà vu\n".as_bytes().to_vec(), 42)
        .unwrap();
    let encoded = gar::archive::write_archive(vec![a, b]);
    let decoded = decode_all(encoded.into_bytes()).unwrap();
    assert_eq!(decoded.len(), 2);
    assert_eq!(decoded[0].name, "a.txt");
    assert_eq!(decoded[0].size, 5);
    assert_eq!(decoded[0].modification_timestamp, 1700000000);
    assert_eq!(decoded[0].contents, "hello");
    assert_eq!(decoded[1].name, "notes/second.md");
    assert_eq!(decoded[1].size, "déjà vu\n".len() as u32);
    assert_eq!(decoded[1].modification_timestamp, 42);
    assert_eq!(decoded[1].contents, "déjà vu\n");
}

#[test]
fn empty_archive_decodes_to_empty_sequence() {
    let decoded = decode_all(Vec::new()).unwrap();
    assert!(decoded.is_empty());
}

#[test]
fn empty_archive_encodes_to_empty_bytes() {
    let encoded = gar::archive::write_archive(Vec::new());
    assert!(encoded.is_empty());
}

#[test]
fn name_padding_and_stripping() {
    let f = ArchivedFile::new("hello".to_string(), Vec::new(), 0).unwrap();
    let record = f.write();
    let bytes = record.as_bytes();
    assert_eq!(&bytes[..5], b"hello");
    assert!(bytes[5..100].iter().all(|&b| b == 0));
    let decoded = decode_all(bytes.to_vec()).unwrap();
    assert_eq!(decoded.len(), 1);
    assert_eq!(decoded[0].name, "hello");
}

#[test]
fn name_of_exactly_100_bytes_is_unpadded() {
    let name = "n".repeat(100);
    let f = ArchivedFile::new(name.clone(), b"x".to_vec(), 7).unwrap();
    let record = f.write();
    assert_eq!(&record.as_bytes()[..100], name.as_bytes());
    let decoded = decode_all(record.into_bytes()).unwrap();
    assert_eq!(decoded[0].name, name);
}

#[test]
fn name_of_101_bytes_is_rejected() {
    let name = "n".repeat(101);
    let err = ArchivedFile::new(name, Vec::new(), 0).unwrap_err();
    assert_eq!(err, ArchiveError::NameTooLong);
}

#[test]
fn name_with_null_byte_is_rejected() {
    let err = ArchivedFile::new("a\0b".to_string(), Vec::new(), 0).unwrap_err();
    assert_eq!(err, ArchiveError::NameContainsNull);
}

#[test]
fn size_field_matches_content_length() {
    let contents = "0123456789abcdefghijklmnopqrstuvwxyz!".as_bytes().to_vec();
    assert_eq!(contents.len(), 37);
    let f = ArchivedFile::new("sized".to_string(), contents, 0).unwrap();
    let record = f.write();
    let bytes = record.as_bytes();
    assert_eq!(bytes.len(), 116 + 37);
    assert_eq!(&bytes[100..108], b"00000025");
    let decoded = decode_all(bytes.to_vec()).unwrap();
    assert_eq!(decoded[0].size, 37);
    assert_eq!(decoded[0].contents.len(), 37);
}

#[test]
fn concrete_record_layout() {
    let f = ArchivedFile::new("a.txt".to_string(), b"hello".to_vec(), 1700000000).unwrap();
    let record = f.write();
    let bytes = record.as_bytes();
    assert_eq!(bytes.len(), 121);
    assert_eq!(&bytes[..5], b"a.txt");
    assert!(bytes[5..100].iter().all(|&b| b == 0));
    assert_eq!(&bytes[100..108], b"00000005");
    assert_eq!(&bytes[108..116], format!("{:08x}", 1700000000u32).as_bytes());
    assert_eq!(&bytes[108..116], b"6553f100");
    assert_eq!(&bytes[116..], b"hello");
    let decoded = decode_all(bytes.to_vec()).unwrap();
    assert_eq!(decoded[0].name, "a.txt");
    assert_eq!(decoded[0].size, 5);
    assert_eq!(decoded[0].modification_timestamp, 1700000000);
    assert_eq!(decoded[0].contents, "hello");
}

#[test]
fn two_concatenated_records_decode_in_order() {
    let a = ArchivedFile::new("first".to_string(), b"one".to_vec(), 1).unwrap();
    let b = ArchivedFile::new("second".to_string(), b"two two".to_vec(), 2).unwrap();
    let mut stream = a.write().into_bytes();
    stream.extend_from_slice(b.write().as_bytes());
    let decoded = decode_all(stream).unwrap();
    assert_eq!(decoded.len(), 2);
    assert_eq!(decoded[0].name, "first");
    assert_eq!(decoded[0].contents, "one");
    assert_eq!(decoded[1].name, "second");
    assert_eq!(decoded[1].contents, "two two");
}

#[test]
fn truncated_content_is_an_error() {
    let f = ArchivedFile::new("cut".to_string(), b"hello".to_vec(), 0).unwrap();
    let mut bytes = f.write().into_bytes();
    bytes.pop();
    let err = decode_all(bytes).unwrap_err();
    assert_eq!(err, ArchiveError::Truncated);
}

#[test]
fn buffer_shorter_than_a_header_is_an_error() {
    let err = decode_all(vec![b'x'; 50]).unwrap_err();
    assert_eq!(err, ArchiveError::Truncated);
}

#[test]
fn declared_size_beyond_buffer_is_an_error() {
    let record = raw_record(&padded_name("big"), "000000ff", "00000000", b"short");
    let err = decode_all(record).unwrap_err();
    assert_eq!(err, ArchiveError::Truncated);
}

#[test]
fn non_utf8_contents_rejected_on_encode() {
    let err = ArchivedFile::new("bin".to_string(), vec![0xff, 0xfe], 0).unwrap_err();
    assert_eq!(err, ArchiveError::ContentsNotUtf8);
}

#[test]
fn non_utf8_contents_rejected_on_decode() {
    let record = raw_record(&padded_name("bin"), "00000001", "00000000", &[0xff]);
    let err = decode_all(record).unwrap_err();
    assert_eq!(err, ArchiveError::ContentsNotUtf8);
}

#[test]
fn non_utf8_name_field_rejected_on_decode() {
    let mut field = padded_name("bad");
    field[0] = 0xff;
    let record = raw_record(&field, "00000000", "00000000", b"");
    let err = decode_all(record).unwrap_err();
    assert_eq!(err, ArchiveError::NameNotUtf8);
}

#[test]
fn bad_size_field_rejected_on_decode() {
    let record = raw_record(&padded_name("f"), "0000zz00", "00000000", b"");
    let err = decode_all(record).unwrap_err();
    assert_eq!(err, ArchiveError::SizeNotHex);
}

#[test]
fn bad_timestamp_field_rejected_on_decode() {
    let record = raw_record(&padded_name("f"), "00000000", "xx000000", b"");
    let err = decode_all(record).unwrap_err();
    assert_eq!(err, ArchiveError::TimestampNotHex);
}

#[test]
fn uppercase_hex_is_accepted_on_decode() {
    let record = raw_record(&padded_name("f"), "0000000A", "000000FF", b"0123456789");
    let decoded = decode_all(record).unwrap();
    assert_eq!(decoded[0].size, 10);
    assert_eq!(decoded[0].modification_timestamp, 255);
    assert_eq!(decoded[0].contents, "0123456789");
}

#[test]
fn zero_size_record_is_legal() {
    let record = raw_record(&padded_name("empty"), "00000000", "00000001", b"");
    let decoded = decode_all(record).unwrap();
    assert_eq!(decoded[0].name, "empty");
    assert_eq!(decoded[0].size, 0);
    assert_eq!(decoded[0].contents, "");
}

#[test]
fn embedded_nulls_in_a_decoded_name_are_stripped() {
    let mut field = padded_name("ab");
    field[1] = 0;
    field[2] = b'b';
    let record = raw_record(&field, "00000000", "00000000", b"");
    let decoded = decode_all(record).unwrap();
    assert_eq!(decoded[0].name, "ab");
}

#[test]
fn timestamp_wider_than_32_bits_wraps() {
    let f = ArchivedFile::new("late".to_string(), Vec::new(), 0x1_0000_0007).unwrap();
    assert_eq!(f.modification_timestamp, 7);
}

#[test]
fn decode_is_all_or_nothing() {
    let good = ArchivedFile::new("good".to_string(), b"fine".to_vec(), 0).unwrap();
    let mut data = good.write().into_bytes();
    data.extend_from_slice(&raw_record(&padded_name("bad"), "deadbeef", "00000000", b""));
    let mut archive = Vec::new();
    let before = data.clone();
    let err = ArchivedFile::from_archive(&mut data, &mut archive).unwrap_err();
    assert_eq!(err, ArchiveError::Truncated);
    assert!(archive.is_empty());
    assert_eq!(data, before);
}

#[test]
fn decode_appends_after_existing_entries() {
    let first = ArchivedFile::new("first".to_string(), b"1".to_vec(), 0).unwrap();
    let second = ArchivedFile::new("second".to_string(), b"2".to_vec(), 0).unwrap();
    let mut archive = vec![first];
    let mut data = second.write().into_bytes();
    ArchivedFile::from_archive(&mut data, &mut archive).unwrap();
    assert!(data.is_empty());
    assert_eq!(archive.len(), 2);
    assert_eq!(archive[0].name, "first");
    assert_eq!(archive[1].name, "second");
}

#[test]
fn error_messages_are_human_readable() {
    assert!(ArchiveError::NameTooLong.message().contains("100"));
    assert!(ArchiveError::Truncated.message().contains("ends before"));
}
