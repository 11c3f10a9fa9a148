use cyberpunk_utility::archive::{
    insert_entry, open_read, read_expanded_names, read_footer, read_header, read_index,
    read_names, read_u32, read_u64, Archive, ArchiveError, FileEntry, Footer, ReadStep,
    FOOTER_MAGIC, HEADER_EXTENDED_SIZE, HEADER_SIZE,
};

fn header_bytes(index_position: u64) -> Vec<u8> {
    let mut bytes = Vec::new();
    bytes.extend_from_slice(&1380009042u32.to_le_bytes());
    bytes.extend_from_slice(&12u32.to_le_bytes());
    bytes.extend_from_slice(&index_position.to_le_bytes());
    bytes.extend_from_slice(&28u32.to_le_bytes());
    bytes.extend_from_slice(&0x1122334455667788u64.to_le_bytes());
    bytes.extend_from_slice(&7u32.to_le_bytes());
    bytes.extend_from_slice(&0x99u64.to_le_bytes());
    bytes
}

fn footer_bytes(magic: u32, size: u32, zsize: u32, count: i32, data: &[u8]) -> Vec<u8> {
    let mut bytes = Vec::new();
    bytes.extend_from_slice(&magic.to_le_bytes());
    bytes.extend_from_slice(&1u32.to_le_bytes());
    bytes.extend_from_slice(&size.to_le_bytes());
    bytes.extend_from_slice(&zsize.to_le_bytes());
    bytes.extend_from_slice(&count.to_le_bytes());
    bytes.extend_from_slice(data);
    bytes
}

fn entry_bytes(hash: u64, stamp: u64, sha_fill: u8) -> Vec<u8> {
    let mut bytes = Vec::new();
    bytes.extend_from_slice(&hash.to_le_bytes());
    bytes.extend_from_slice(&stamp.to_le_bytes());
    bytes.extend_from_slice(&1u32.to_le_bytes());
    bytes.extend_from_slice(&2u32.to_le_bytes());
    bytes.extend_from_slice(&3u32.to_le_bytes());
    bytes.extend_from_slice(&4u32.to_le_bytes());
    bytes.extend_from_slice(&5u32.to_le_bytes());
    bytes.extend_from_slice(&[sha_fill; 20]);
    bytes
}

fn index_bytes(entries: &[Vec<u8>]) -> Vec<u8> {
    let mut bytes = Vec::new();
    bytes.extend_from_slice(&8u32.to_le_bytes());
    bytes.extend_from_slice(&((entries.len() * 56) as u32).to_le_bytes());
    bytes.extend_from_slice(&0xabcdefu64.to_le_bytes());
    bytes.extend_from_slice(&(entries.len() as u32).to_le_bytes());
    bytes.extend_from_slice(&6u32.to_le_bytes());
    bytes.extend_from_slice(&9u32.to_le_bytes());
    for e in entries {
        bytes.extend_from_slice(e);
    }
    bytes
}

/// An archive with a footer: header, footer length, padding up to the
/// place of the footer, the footer, then the index.
fn archive_bytes(footer: Option<Vec<u8>>, entries: &[Vec<u8>]) -> Vec<u8> {
    let footer = footer.unwrap_or_default();
    let index_position = (HEADER_EXTENDED_SIZE + footer.len()) as u64;
    let mut bytes = header_bytes(index_position);
    bytes.extend_from_slice(&(footer.len() as u32).to_le_bytes());
    bytes.resize(HEADER_EXTENDED_SIZE, 0);
    bytes.extend_from_slice(&footer);
    bytes.extend_from_slice(&index_bytes(entries));
    bytes
}

fn done(read: Result<ReadStep, ArchiveError>) -> Archive {
    match read {
        Ok(ReadStep::Done(archive)) => archive,
        Ok(ReadStep::Expand(_)) => panic!("the names are not compressed"),
        Err(e) => panic!("the archive is sound: {e:?}"),
    }
}

#[test]
fn numbers_are_little_endian() {
    let bytes = [0x78, 0x56, 0x34, 0x12, 0xef, 0xcd, 0xab, 0x90, 0x01];
    assert_eq!(read_u32(&bytes, 0), 0x12345678);
    assert_eq!(read_u32(&bytes, 1), 0xef123456);
    assert_eq!(read_u64(&bytes, 0), 0x90abcdef12345678);
    assert_eq!(read_u64(&bytes, 1), 0x0190abcdef123456);
}

#[test]
fn header_fields_come_in_order() {
    let header = read_header(&header_bytes(0x1000)).unwrap();
    assert_eq!(header.magic, 1380009042);
    assert!(header.has_magic());
    assert_eq!(header.version, 12);
    assert_eq!(header.index_position, 0x1000);
    assert_eq!(header.index_size, 28);
    assert_eq!(header.debug_position, 0x1122334455667788);
    assert_eq!(header.debug_size, 7);
    assert_eq!(header.filesize, 0x99);
}

#[test]
fn short_header_is_truncated() {
    let bytes = header_bytes(0);
    assert_eq!(bytes.len(), HEADER_SIZE);
    assert_eq!(read_header(&bytes[..39]), Err(ArchiveError::Truncated));
    assert_eq!(read_header(&[]), Err(ArchiveError::Truncated));
    assert!(matches!(open_read(&bytes[..39]), Err(ArchiveError::Truncated)));
}

#[test]
fn magic_of_the_header_is_not_checked() {
    let mut bytes = archive_bytes(None, &[]);
    bytes[0] = 0;
    bytes[1] = 0;
    let archive = done(open_read(&bytes));
    assert_eq!(archive.header.magic & 0xffff, 0);
    assert!(!archive.header.has_magic());
}

#[test]
fn footer_round_trip() {
    let names = b"base\\a.mesh\0base\\b.ent\0c\0";
    let footer = footer_bytes(FOOTER_MAGIC, names.len() as u32, names.len() as u32, 3, names);
    let archive = done(open_read(&archive_bytes(Some(footer), &[])));
    assert_eq!(
        archive.file_names,
        Some(vec!["base\\a.mesh".to_owned(), "base\\b.ent".to_owned(), "c".to_owned()])
    );
}

#[test]
fn footer_names_come_back_whatever_their_number() {
    for count in [0usize, 1, 3, 40] {
        let names: Vec<String> = (0..count).map(|i| format!("base\\file{i}\u{e9}.ent")).collect();
        let mut data = Vec::new();
        for name in &names {
            data.extend_from_slice(name.as_bytes());
            data.push(0);
        }
        let footer = footer_bytes(FOOTER_MAGIC, data.len() as u32, data.len() as u32, count as i32, &data);
        let archive = done(open_read(&archive_bytes(Some(footer), &[entry_bytes(9, 0, 0)])));
        assert_eq!(archive.file_names, Some(names));
        assert_eq!(archive.content_hashes(), vec![9]);
    }
}

#[test]
fn read_archives_list_their_entries_in_hash_order() {
    let bytes = archive_bytes(None, &[entry_bytes(30, 1, 0), entry_bytes(10, 2, 0), entry_bytes(30, 3, 0)]);
    let archive = done(open_read(&bytes));
    assert!(archive.index.is_in_hash_order());
    assert_eq!(archive.content_hashes(), vec![10, 30]);

    let footer = footer_bytes(FOOTER_MAGIC, 4, 2, 1, &[1, 2]);
    let bytes = archive_bytes(Some(footer), &[entry_bytes(7, 0, 0), entry_bytes(2, 0, 0)]);
    let pending = match open_read(&bytes) {
        Ok(ReadStep::Expand(pending)) => pending,
        _ => panic!("the names are compressed"),
    };
    let archive = pending.finish(Some(b"abc\0")).unwrap();
    assert!(archive.index.is_in_hash_order());
    assert_eq!(archive.content_hashes(), vec![2, 7]);
    assert_eq!(archive.header.version, 12);
}

#[test]
fn archive_without_footer_has_no_names() {
    let archive = done(open_read(&archive_bytes(None, &[entry_bytes(5, 1, 0)])));
    assert_eq!(archive.file_names, None);
    assert_eq!(archive.content_hashes(), vec![5]);
}

#[test]
fn archive_that_ends_behind_its_header_has_no_footer() {
    let mut bytes = header_bytes(44);
    bytes.extend_from_slice(&0u32.to_le_bytes());
    bytes.extend_from_slice(&index_bytes(&[]));
    assert!(matches!(read_footer(&bytes[..40]), Ok(Footer::Absent)));
    assert!(matches!(read_footer(&bytes[..43]), Ok(Footer::Absent)));
    let archive = done(open_read(&bytes));
    assert_eq!(archive.file_names, None);
    assert_eq!(archive.index.file_entry_count, 0);
}

#[test]
fn wrong_footer_magic_is_refused() {
    let footer = footer_bytes(FOOTER_MAGIC + 1, 2, 2, 1, b"a\0");
    let bytes = archive_bytes(Some(footer), &[]);
    assert!(matches!(read_footer(&bytes), Err(ArchiveError::InvalidFooterMagic)));
    assert!(matches!(open_read(&bytes), Err(ArchiveError::InvalidFooterMagic)));
}

#[test]
fn size_below_compressed_size_is_refused() {
    let footer = footer_bytes(FOOTER_MAGIC, 2, 3, 1, b"a\0\0");
    let bytes = archive_bytes(Some(footer), &[]);
    assert!(matches!(open_read(&bytes), Err(ArchiveError::InvalidFooter)));
}

#[test]
fn footer_that_ends_early_is_truncated() {
    let footer = footer_bytes(FOOTER_MAGIC, 2, 2, 1, b"a\0");
    let bytes = archive_bytes(Some(footer), &[]);
    assert!(matches!(
        read_footer(&bytes[..HEADER_EXTENDED_SIZE + 19]),
        Err(ArchiveError::Truncated)
    ));
}

#[test]
fn name_without_its_zero_byte_is_truncated() {
    assert_eq!(read_names(b"one\0two", 0, 2), Err(ArchiveError::Truncated));
    assert_eq!(read_names(b"one\0two", 0, 1), Ok(vec!["one".to_owned()]));
    assert_eq!(read_names(b"", 0, 1), Err(ArchiveError::Truncated));
    assert_eq!(read_names(b"", 0, 0), Ok(vec![]));
}

#[test]
fn names_are_read_from_their_place() {
    assert_eq!(
        read_names(b"xx\0\0\xc3\xa9\0rest", 2, 3),
        Ok(vec!["".to_owned(), "".to_owned(), "\u{e9}".to_owned()])
    );
}

#[test]
fn name_that_is_no_text_is_refused() {
    assert_eq!(read_names(b"ok\0\xff\xfe\0", 0, 2), Err(ArchiveError::InvalidFooter));
}

#[test]
fn count_below_zero_gives_no_names() {
    let footer = footer_bytes(FOOTER_MAGIC, 2, 2, -1, b"a\0");
    let archive = done(open_read(&archive_bytes(Some(footer), &[])));
    assert_eq!(archive.file_names, Some(vec![]));
}

#[test]
fn compressed_names_wait_for_their_expansion() {
    let footer = footer_bytes(FOOTER_MAGIC, 8, 3, 2, &[9, 8, 7]);
    let bytes = archive_bytes(Some(footer), &[entry_bytes(3, 0, 0)]);
    let pending = match open_read(&bytes) {
        Ok(ReadStep::Expand(pending)) => pending,
        _ => panic!("the names are compressed"),
    };
    assert_eq!(pending.data, vec![9, 8, 7]);
    assert_eq!(pending.size, 8);
    assert_eq!(pending.count, 2);
    let archive = pending.finish(Some(b"abc\0def\0")).unwrap();
    assert_eq!(archive.file_names, Some(vec!["abc".to_owned(), "def".to_owned()]));
    assert_eq!(archive.content_hashes(), vec![3]);
}

#[test]
fn failed_expansion_is_an_error() {
    let footer = footer_bytes(FOOTER_MAGIC, 8, 3, 2, &[9, 8, 7]);
    let bytes = archive_bytes(Some(footer), &[]);
    let pending = |bytes: &[u8]| match open_read(bytes) {
        Ok(ReadStep::Expand(pending)) => pending,
        _ => panic!("the names are compressed"),
    };
    assert_eq!(pending(&bytes).finish(None), Err(ArchiveError::DecompressionFailed));
    assert_eq!(
        pending(&bytes).finish(Some(b"abc\0de\0")),
        Err(ArchiveError::DecompressionFailed)
    );
    assert_eq!(read_expanded_names(None, 0, 0), Err(ArchiveError::DecompressionFailed));
    assert_eq!(read_expanded_names(Some(b"a\0"), 2, 1), Ok(vec!["a".to_owned()]));
}

#[test]
fn compressed_data_that_ends_early_is_truncated() {
    let footer = footer_bytes(FOOTER_MAGIC, 8, 4, 2, &[9, 8, 7]);
    let mut bytes = header_bytes(0);
    bytes.extend_from_slice(&1u32.to_le_bytes());
    bytes.resize(HEADER_EXTENDED_SIZE, 0);
    bytes.extend_from_slice(&footer);
    assert!(matches!(read_footer(&bytes), Err(ArchiveError::Truncated)));
}

#[test]
fn index_lists_its_entries_by_hash() {
    let bytes = archive_bytes(None, &[entry_bytes(30, 1, 0xaa), entry_bytes(10, 2, 0xbb), entry_bytes(20, 3, 0xcc)]);
    let archive = done(open_read(&bytes));
    assert_eq!(archive.index.file_table_offset, 8);
    assert_eq!(archive.index.file_table_size, 3 * 56);
    assert_eq!(archive.index.crc, 0xabcdef);
    assert_eq!(archive.index.file_entry_count, 3);
    assert_eq!(archive.index.file_segment_count, 6);
    assert_eq!(archive.index.resource_dependency_count, 9);
    assert_eq!(archive.content_hashes(), vec![10, 20, 30]);
    let entry = archive.index.get_entry(10).unwrap();
    assert_eq!(entry.timestamp, 2);
    assert_eq!(entry.num_inline_buffer_segments, 1);
    assert_eq!(entry.segments_start, 2);
    assert_eq!(entry.segments_end, 3);
    assert_eq!(entry.resource_dependencies_start, 4);
    assert_eq!(entry.resource_dependencies_end, 5);
    assert_eq!(entry.sha1_hash, vec![0xbb; 20]);
    assert!(archive.index.get_entry(11).is_none());
}

#[test]
fn later_entry_of_the_same_hash_stays() {
    let bytes = archive_bytes(None, &[entry_bytes(7, 1, 0), entry_bytes(8, 2, 0), entry_bytes(7, 3, 0)]);
    let archive = done(open_read(&bytes));
    assert_eq!(archive.index.file_entry_count, 3);
    assert_eq!(archive.content_hashes(), vec![7, 8]);
    assert_eq!(archive.index.get_entry(7).unwrap().timestamp, 3);
}

#[test]
fn index_that_ends_early_is_truncated() {
    let bytes = archive_bytes(None, &[entry_bytes(1, 1, 0), entry_bytes(2, 2, 0)]);
    assert!(matches!(open_read(&bytes[..bytes.len() - 1]), Err(ArchiveError::Truncated)));
    assert!(matches!(
        read_index(&bytes, HEADER_EXTENDED_SIZE as u64 + 1),
        Err(ArchiveError::Truncated)
    ));
    assert!(matches!(read_index(&bytes, u64::MAX), Err(ArchiveError::Truncated)));
    assert!(matches!(
        read_index(&bytes[..HEADER_EXTENDED_SIZE + 27], HEADER_EXTENDED_SIZE as u64),
        Err(ArchiveError::Truncated)
    ));
}

#[test]
fn bytes_behind_the_entries_are_not_read() {
    let mut bytes = archive_bytes(None, &[entry_bytes(1, 1, 0)]);
    bytes.extend_from_slice(&[0xff; 5]);
    assert_eq!(done(open_read(&bytes)).content_hashes(), vec![1]);
}

#[test]
fn footer_errors_come_before_index_errors() {
    let footer = footer_bytes(FOOTER_MAGIC + 1, 2, 2, 1, b"a\0");
    let bytes = archive_bytes(Some(footer), &[entry_bytes(1, 1, 0)]);
    assert!(matches!(
        open_read(&bytes[..bytes.len() - 10]),
        Err(ArchiveError::InvalidFooterMagic)
    ));
}

#[test]
fn entries_are_kept_in_hash_order() {
    let entry = |hash: u64, stamp: u64| FileEntry {
        name_hash_64: hash,
        timestamp: stamp,
        num_inline_buffer_segments: 0,
        segments_start: 0,
        segments_end: 0,
        resource_dependencies_start: 0,
        resource_dependencies_end: 0,
        sha1_hash: vec![0; 20],
    };
    let mut entries = vec![];
    insert_entry(&mut entries, entry(5, 0));
    insert_entry(&mut entries, entry(2, 0));
    insert_entry(&mut entries, entry(9, 0));
    insert_entry(&mut entries, entry(5, 1));
    let hashes: Vec<u64> = entries.iter().map(|e| e.name_hash_64).collect();
    assert_eq!(hashes, vec![2, 5, 9]);
    assert_eq!(entries[1].timestamp, 1);
}
