use asar::archive::{read_header, ArchiveSource, Asar, HeaderError};
use asar::layout::{find_blob, find_header, read_le_u32};
use asar::tree::{Defect, Entry, MetadataTree, NamedEntry};

fn archive(header: &[u8], blob: &[u8]) -> Vec<u8> {
    let mut bytes = vec![0xaau8; 12];
    bytes.extend_from_slice(&(header.len() as u32).to_le_bytes());
    bytes.extend_from_slice(header);
    bytes.extend_from_slice(&[0, 0, 0]);
    bytes.extend_from_slice(blob);
    bytes
}

fn named(name: &str, entry: Entry) -> NamedEntry {
    NamedEntry { name: name.to_string(), entry }
}

fn directory(children: Vec<NamedEntry>) -> Entry {
    Entry::Directory { children }
}

#[test]
fn size_field_is_little_endian() {
    let bytes = [0u8, 0, 0, 0, 0x0a, 0x01, 0, 0];
    assert_eq!(read_le_u32(&bytes, 4), 0x010a);
    let bytes = [0x78u8, 0x56, 0x34, 0x12];
    assert_eq!(read_le_u32(&bytes, 0), 0x1234_5678);
    let bytes = [0xffu8, 0xff, 0xff, 0xff];
    assert_eq!(read_le_u32(&bytes, 0), u32::MAX);
}

#[test]
fn header_is_found_behind_sixteen_bytes() {
    let bytes = archive(b"{}", b"blob");
    let span = find_header(&bytes).unwrap();
    assert_eq!((span.start, span.end), (16, 18));
    assert_eq!(find_blob(&bytes), Some(21));
}

#[test]
fn header_of_length_zero_is_found() {
    let bytes = archive(b"", b"");
    let span = find_header(&bytes).unwrap();
    assert_eq!((span.start, span.end), (16, 16));
    assert_eq!(find_blob(&bytes), Some(19));
}

#[test]
fn short_preamble_has_no_header() {
    assert!(find_header(&[]).is_none());
    assert!(find_header(&[0u8; 15]).is_none());
    assert!(find_header(&[0u8; 16]).is_some());
}

#[test]
fn missing_filler_has_no_blob() {
    let mut bytes = archive(b"{}", b"");
    bytes.truncate(20);
    assert!(find_header(&bytes).is_some());
    assert_eq!(find_blob(&bytes), None);
    assert_eq!(find_blob(&bytes[..10]), None);
}

#[test]
fn header_with_files_is_read() {
    let header = br#"{"files": {"a.txt": {"offset": "0", "size": 5}, "sub": {"files": {"b.txt": {"offset": "5", "size": 3}}}}}"#;
    let bytes = archive(header, b"helloxyz");
    let (tree, start) = read_header(&bytes).unwrap();
    assert_eq!(start, 16 + header.len() + 3);
    assert_eq!(&bytes[start..], b"helloxyz");
    let expected = MetadataTree {
        root: directory(vec![
            named("a.txt", Entry::File { offset: 0, size: 5 }),
            named("sub", directory(vec![named("b.txt", Entry::File { offset: 5, size: 3 })])),
        ]),
    };
    assert_eq!(tree, expected);
}

#[test]
fn advertised_size_beyond_the_stream_is_an_io_error() {
    let mut bytes = vec![0u8; 12];
    bytes.extend_from_slice(&100u32.to_le_bytes());
    bytes.extend_from_slice(br#"{"files": {}}"#);
    assert!(matches!(read_header(&bytes), Err(HeaderError::Io)));
    let mut source = ArchiveSource::new(bytes);
    assert!(matches!(source.get_headers(), Err(HeaderError::Io)));
}

#[test]
fn largest_advertised_size_is_an_io_error() {
    let mut bytes = vec![0u8; 12];
    bytes.extend_from_slice(&[0xff, 0xff, 0xff, 0xff]);
    bytes.extend_from_slice(b"{}");
    assert!(matches!(read_header(&bytes), Err(HeaderError::Io)));
}

#[test]
fn empty_stream_is_an_io_error() {
    assert!(matches!(read_header(&[]), Err(HeaderError::Io)));
}

#[test]
fn invalid_utf8_is_a_decode_error() {
    let bytes = archive(&[b'{', 0xff, b'}'], b"");
    assert!(matches!(read_header(&bytes), Err(HeaderError::Decode)));
}

#[test]
fn invalid_json_is_a_format_error() {
    let bytes = archive(br#"{"files": "#, b"");
    assert!(matches!(read_header(&bytes), Err(HeaderError::Format(_))));
}

#[test]
fn json_that_is_no_object_is_a_format_error() {
    for header in [&b"[]"[..], b"3", b"\"files\"", b"true", b"null", b""] {
        let bytes = archive(header, b"");
        assert!(matches!(read_header(&bytes), Err(HeaderError::Format(_))));
    }
}

#[test]
fn text_behind_the_object_is_a_format_error() {
    let bytes = archive(br#"{"files": {}} x"#, b"");
    assert!(matches!(read_header(&bytes), Err(HeaderError::Format(_))));
}

#[test]
fn decode_error_comes_before_missing_filler() {
    let mut bytes = archive(&[0xc0, 0x80], b"");
    bytes.truncate(18);
    assert!(matches!(read_header(&bytes), Err(HeaderError::Decode)));
}

#[test]
fn format_error_comes_before_missing_filler() {
    let mut bytes = archive(b"[1]", b"");
    bytes.truncate(19);
    assert!(matches!(read_header(&bytes), Err(HeaderError::Format(_))));
}

#[test]
fn missing_filler_is_an_io_error() {
    let mut bytes = archive(br#"{"files": {}}"#, b"");
    bytes.truncate(bytes.len() - 1);
    assert!(matches!(read_header(&bytes), Err(HeaderError::Io)));
}

#[test]
fn header_without_files_is_read_and_marked() {
    let bytes = archive(b"{}", b"");
    let (tree, _) = read_header(&bytes).unwrap();
    assert_eq!(tree.root, Entry::Malformed { defect: Defect::ChildrenMissing });
}

#[test]
fn get_headers_leaves_the_source_at_the_blob() {
    let header = br#"{"files": {"a": {"offset": "1", "size": 2}}}"#;
    let mut source = ArchiveSource::new(archive(header, b"xyz"));
    let tree = source.get_headers().unwrap();
    let extraction = source.unpack_files(&tree, "out", None);
    assert_eq!(extraction.failure, None);
    assert_eq!(
        extraction.actions,
        vec![
            asar::extract::Action::CreateDir { path: "out".to_string() },
            asar::extract::Action::WriteFile { path: "out/a".to_string(), bytes: b"yz".to_vec() },
        ]
    );
}

#[test]
fn failed_get_headers_consumes_nothing() {
    let header = br#"{"files": {}}"#;
    let mut bytes = archive(b"[", b"");
    let second = archive(header, b"");
    bytes.truncate(0);
    bytes.extend_from_slice(&second[..17]);
    let mut source = ArchiveSource::new(bytes);
    assert!(matches!(source.get_headers(), Err(HeaderError::Io)));
    let tree = MetadataTree { root: directory(vec![named("f", Entry::File { offset: 0, size: 17 })]) };
    let extraction = source.unpack_files(&tree, "d", None);
    assert_eq!(extraction.failure, None);
    assert_eq!(
        extraction.actions[1],
        asar::extract::Action::WriteFile { path: "d/f".to_string(), bytes: second[..17].to_vec() }
    );
}

#[test]
fn unpack_without_data_consumes_the_source() {
    let mut source = ArchiveSource::new(b"abc".to_vec());
    let tree = MetadataTree { root: directory(vec![named("f", Entry::File { offset: 0, size: 3 })]) };
    let first = source.unpack_files(&tree, "d", None);
    assert_eq!(first.failure, None);
    let second = source.unpack_files(&tree, "d", None);
    assert_eq!(second.failure.unwrap().defect, Defect::OutOfRange);
}

#[test]
fn unpack_with_data_leaves_the_source() {
    let mut source = ArchiveSource::new(b"abc".to_vec());
    let tree = MetadataTree { root: directory(vec![named("f", Entry::File { offset: 0, size: 3 })]) };
    let first = source.unpack_files(&tree, "d", Some(b"xyz"));
    assert_eq!(
        first.actions[1],
        asar::extract::Action::WriteFile { path: "d/f".to_string(), bytes: b"xyz".to_vec() }
    );
    let second = source.unpack_files(&tree, "d", None);
    assert_eq!(
        second.actions[1],
        asar::extract::Action::WriteFile { path: "d/f".to_string(), bytes: b"abc".to_vec() }
    );
}

#[test]
fn assembled_archive_is_read_back() {
    let header = "{\"files\": {\"né\": {\"link\": \"€\"}, \"b\": {\"offset\": \"+3\", \"size\": 0}}}";
    for blob in [&b""[..], b"x", b"some longer blob \x00\xff"] {
        let mut bytes = vec![0x5au8; 12];
        bytes.extend_from_slice(&(header.len() as u32).to_le_bytes());
        bytes.extend_from_slice(header.as_bytes());
        bytes.extend_from_slice(&[1, 2, 3]);
        bytes.extend_from_slice(blob);
        let (tree, start) = read_header(&bytes).unwrap();
        assert_eq!(&bytes[start..], blob);
        match tree.root {
            Entry::Directory { mut children } => {
                children.sort_by(|l, r| l.name.cmp(&r.name));
                assert_eq!(
                    children,
                    vec![
                        named("b", Entry::File { offset: 3, size: 0 }),
                        named("né", Entry::Symlink { target: "€".to_string() }),
                    ]
                );
            }
            other => panic!("not a directory: {:?}", other),
        }
    }
}

#[test]
fn source_is_consumed_from_the_front() {
    let header = br#"{"files": {}}"#;
    let mut source = ArchiveSource::new(archive(header, b"the blob"));
    assert_eq!(source.remaining().len(), 16 + header.len() + 3 + 8);
    let tree = source.get_headers().unwrap();
    assert_eq!(source.remaining(), b"the blob");
    source.unpack_files(&tree, "out", Some(b"other"));
    assert_eq!(source.remaining(), b"the blob");
    source.unpack_files(&tree, "out", None);
    assert_eq!(source.remaining(), b"");
}

#[test]
fn source_is_left_alone_where_the_header_is_refused() {
    for bytes in [archive(b"[", b"blob"), archive(&[0x80], b"blob"), vec![1u8; 7], {
        let mut short = archive(b"{}", b"");
        short.pop();
        short
    }] {
        let mut source = ArchiveSource::new(bytes.clone());
        assert!(source.get_headers().is_err());
        assert_eq!(source.remaining(), &bytes[..]);
    }
}
