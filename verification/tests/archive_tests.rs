use pdfscan::archive::{
    archive_name, build_archive, encode_archive_bytes, read_archive, restore_entry_data,
    timestamped_archive_name, ArchiveEntry, ArchiveError, FileInput,
};

fn entry(name: &str, data: &[u8]) -> ArchiveEntry {
    ArchiveEntry {
        name: name.as_bytes().to_vec(),
        crc: crc32fast::hash(data),
        raw_size: data.len() as u32,
        data: miniz_oxide::deflate::compress_to_vec(data, 6),
    }
}

fn restore(e: &ArchiveEntry) -> Vec<u8> {
    restore_entry_data(e).unwrap()
}

#[test]
fn round_trip_keeps_every_entry_byte_identical() {
    let originals: Vec<(&str, &[u8])> = vec![
        ("a.pdf", b"first file bytes"),
        ("b.pdf", b""),
        ("c.pdf", &[0u8, 255u8, 1u8, 128u8]),
    ];
    let entries: Vec<ArchiveEntry> = originals.iter().map(|(n, d)| entry(n, d)).collect();
    let bytes = encode_archive_bytes(&entries);
    let decoded = read_archive(&bytes).unwrap();
    assert_eq!(decoded.len(), 3);
    for ((name, data), after) in originals.iter().zip(decoded.iter()) {
        assert_eq!(name.as_bytes(), &after.name[..]);
        assert_eq!(after.crc, crc32fast::hash(data));
        assert_eq!(after.raw_size as usize, data.len());
        // The stored stream decompresses back to the original bytes.
        assert_eq!(&restore(after)[..], *data);
    }
}

#[test]
fn empty_archive_round_trips() {
    let entries: Vec<ArchiveEntry> = Vec::new();
    let bytes = encode_archive_bytes(&entries);
    // Just the end-of-central-directory record.
    assert_eq!(bytes.len(), 22);
    let decoded = read_archive(&bytes).unwrap();
    assert!(decoded.is_empty());
}

#[test]
fn archive_has_zip_structure() {
    let entries = vec![entry("a.pdf", b"payload")];
    let bytes = encode_archive_bytes(&entries);
    // Local file header signature at the front.
    assert_eq!(&bytes[0..4], &[0x50, 0x4b, 0x03, 0x04]);
    // Deflate method in the local header.
    assert_eq!(&bytes[8..10], &[8, 0]);
    // End record signature 22 bytes from the end, with one entry.
    let e = bytes.len() - 22;
    assert_eq!(&bytes[e..e + 4], &[0x50, 0x4b, 0x05, 0x06]);
    assert_eq!(&bytes[e + 10..e + 12], &[1, 0]);
    // Central directory signature where the end record points.
    let cd = u32::from_le_bytes([bytes[e + 16], bytes[e + 17], bytes[e + 18], bytes[e + 19]])
        as usize;
    assert_eq!(&bytes[cd..cd + 4], &[0x50, 0x4b, 0x01, 0x02]);
}

#[test]
fn stored_checksum_is_standard_crc32() {
    let entries = vec![entry("check.pdf", b"123456789")];
    let bytes = encode_archive_bytes(&entries);
    let decoded = read_archive(&bytes).unwrap();
    // The well-known CRC-32 check value.
    assert_eq!(decoded[0].crc, 0xcbf43926);
}

#[test]
fn stored_stream_is_really_compressed() {
    let original = vec![b'a'; 10000];
    let entries = vec![entry("big.pdf", &original)];
    let bytes = encode_archive_bytes(&entries);
    let decoded = read_archive(&bytes).unwrap();
    assert!(decoded[0].data.len() < original.len());
    assert_eq!(restore(&decoded[0]), original);
}

#[test]
fn restore_rejects_a_broken_stream() {
    // Bytes that are no deflate stream at all decompress to nothing.
    let e = ArchiveEntry { name: b"x".to_vec(), crc: 0, raw_size: 0, data: vec![7u8, 7, 7] };
    assert!(restore_entry_data(&e).is_none());
}

#[test]
fn truncated_archive_is_rejected() {
    let entries = vec![entry("a.pdf", b"payload")];
    let mut bytes = encode_archive_bytes(&entries);
    bytes.pop();
    assert!(read_archive(&bytes).is_none());
}

#[test]
fn trailing_garbage_is_rejected() {
    let entries = vec![entry("a.pdf", b"payload")];
    let mut bytes = encode_archive_bytes(&entries);
    bytes.push(0);
    assert!(read_archive(&bytes).is_none());
}

#[test]
fn short_buffer_is_rejected() {
    let bytes = vec![1u8, 2u8, 3u8];
    assert!(read_archive(&bytes).is_none());
}

#[test]
fn count_without_entries_is_rejected() {
    // A bare end record announcing one entry that is not there.
    let bytes = vec![
        0x50u8, 0x4b, 0x05, 0x06, 0, 0, 0, 0, 1, 0, 1, 0, 0, 0, 0, 0, 0, 0, 0, 0, 0, 0,
    ];
    assert!(read_archive(&bytes).is_none());
}

#[test]
fn build_archive_names_entries_by_base_name() {
    let files = vec![
        FileInput { path: String::from("dirA/a.pdf"), content: Some(b"alpha".to_vec()) },
        FileInput { path: String::from("dirB/sub/b.pdf"), content: Some(b"beta".to_vec()) },
    ];
    let bytes = build_archive(&files).unwrap();
    let decoded = read_archive(&bytes).unwrap();
    assert_eq!(decoded.len(), 2);
    assert_eq!(decoded[0].name, b"a.pdf".to_vec());
    assert_eq!(restore(&decoded[0]), b"alpha".to_vec());
    assert_eq!(decoded[1].name, b"b.pdf".to_vec());
    assert_eq!(restore(&decoded[1]), b"beta".to_vec());
}

#[test]
fn build_archive_fails_on_first_unreadable_file() {
    let files = vec![
        FileInput { path: String::from("ok.pdf"), content: Some(b"x".to_vec()) },
        FileInput { path: String::from("gone/first.pdf"), content: None },
        FileInput { path: String::from("gone/second.pdf"), content: None },
    ];
    match build_archive(&files).unwrap_err() {
        ArchiveError::Unreadable { path } => assert_eq!(path, "gone/first.pdf"),
        ArchiveError::TooLarge => panic!("expected the unreadable error"),
    }
}

#[test]
fn shared_base_names_stay_duplicated() {
    // Two files from different directories sharing a base name produce
    // two entries with the same name; the format keeps both.
    let files = vec![
        FileInput { path: String::from("a/same.pdf"), content: Some(b"one".to_vec()) },
        FileInput { path: String::from("b/same.pdf"), content: Some(b"two".to_vec()) },
    ];
    let bytes = build_archive(&files).unwrap();
    let decoded = read_archive(&bytes).unwrap();
    assert_eq!(decoded.len(), 2);
    assert_eq!(decoded[0].name, decoded[1].name);
    assert_eq!(restore(&decoded[0]), b"one".to_vec());
    assert_eq!(restore(&decoded[1]), b"two".to_vec());
}

#[test]
fn archive_name_is_deterministic() {
    assert_eq!(archive_name(2024, 1, 2, 3, 4, 5), "search_results_20240102030405.zip");
    assert_eq!(archive_name(1999, 12, 31, 23, 59, 58), "search_results_19991231235958.zip");
}

#[test]
fn timestamped_name_has_the_documented_shape() {
    let name = timestamped_archive_name();
    assert_eq!(name.len(), 33);
    assert!(name.starts_with("search_results_"));
    assert!(name.ends_with(".zip"));
    let stamp = &name[15..29];
    assert!(stamp.chars().all(|c| c.is_ascii_digit()));
    let month: u32 = stamp[4..6].parse().unwrap();
    let day: u32 = stamp[6..8].parse().unwrap();
    let hour: u32 = stamp[8..10].parse().unwrap();
    let minute: u32 = stamp[10..12].parse().unwrap();
    let second: u32 = stamp[12..14].parse().unwrap();
    assert!((1..=12).contains(&month));
    assert!((1..=31).contains(&day));
    assert!(hour < 24);
    assert!(minute < 60);
    assert!(second < 60);
}
