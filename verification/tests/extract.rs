use std::collections::BTreeMap;

use asar::archive::{ArchiveSource, Asar};
use asar::extract::{extract, Action, Extraction, MalformedEntry};
use asar::tree::{Defect, Entry, MetadataTree, NamedEntry};

fn archive(header: &[u8], blob: &[u8]) -> Vec<u8> {
    let mut bytes = vec![0u8; 12];
    bytes.extend_from_slice(&(header.len() as u32).to_le_bytes());
    bytes.extend_from_slice(header);
    bytes.extend_from_slice(&[0, 0, 0]);
    bytes.extend_from_slice(blob);
    bytes
}

fn named(name: &str, entry: Entry) -> NamedEntry {
    NamedEntry { name: name.to_string(), entry }
}

fn tree(children: Vec<NamedEntry>) -> MetadataTree {
    MetadataTree { root: Entry::Directory { children } }
}

fn dir(path: &str) -> Action {
    Action::CreateDir { path: path.to_string() }
}

fn file(path: &str, bytes: &[u8]) -> Action {
    Action::WriteFile { path: path.to_string(), bytes: bytes.to_vec() }
}

fn perform(disk: &mut BTreeMap<String, Option<Vec<u8>>>, extraction: &Extraction) {
    for action in &extraction.actions {
        match action {
            Action::CreateDir { path } => disk.insert(path.clone(), None),
            Action::WriteFile { path, bytes } => disk.insert(path.clone(), Some(bytes.clone())),
        };
    }
}

fn stopped(path: &str, defect: Defect) -> Option<MalformedEntry> {
    Some(MalformedEntry { path: path.to_string(), defect })
}

#[test]
fn files_and_directories_are_unpacked() {
    let header = br#"{"files": {"a.txt": {"offset": "0", "size": 5}, "sub": {"files": {"b.txt": {"offset": "5", "size": 3}}}}}"#;
    let mut source = ArchiveSource::new(archive(header, b"helloxyz"));
    let headers = source.get_headers().unwrap();
    let extraction = source.unpack_files(&headers, "out", None);
    assert_eq!(extraction.failure, None);
    assert_eq!(extraction.actions.len(), 4);
    assert_eq!(extraction.actions[0], dir("out"));
    let at = |action: &Action| extraction.actions.iter().position(|a| a == action).unwrap();
    at(&file("out/a.txt", b"hello"));
    assert!(at(&dir("out/sub")) < at(&file("out/sub/b.txt", b"xyz")));
}

#[test]
fn same_archive_with_data_given() {
    let header = br#"{"files": {"a.txt": {"offset": "0", "size": 5}, "sub": {"files": {"b.txt": {"offset": "5", "size": 3}}}}}"#;
    let mut source = ArchiveSource::new(archive(header, b""));
    let headers = source.get_headers().unwrap();
    let extraction = source.unpack_files(&headers, "out", Some(b"helloxyz"));
    assert_eq!(extraction.failure, None);
    assert!(extraction.actions.contains(&file("out/a.txt", b"hello")));
    assert!(extraction.actions.contains(&file("out/sub/b.txt", b"xyz")));
}

#[test]
fn symlink_becomes_a_file_with_the_target_as_text() {
    let header = br#"{"files": {"l": {"link": "target.txt"}}}"#;
    let mut source = ArchiveSource::new(archive(header, b""));
    let headers = source.get_headers().unwrap();
    let extraction = source.unpack_files(&headers, "out", None);
    assert_eq!(
        extraction,
        Extraction { actions: vec![dir("out"), file("out/l", b"target.txt")], failure: None }
    );
}

#[test]
fn symlink_target_is_written_as_utf8() {
    let t = tree(vec![named("l", Entry::Symlink { target: "né/€".to_string() })]);
    let extraction = extract(&t, "out", b"");
    assert_eq!(extraction.actions[1], file("out/l", "né/€".as_bytes()));
}

#[test]
fn steps_follow_the_tree_in_order() {
    let t = tree(vec![
        named("z", Entry::File { offset: 1, size: 2 }),
        named(
            "d",
            Entry::Directory {
                children: vec![
                    named("x", Entry::File { offset: 0, size: 1 }),
                    named("e", Entry::Directory { children: vec![] }),
                    named("l", Entry::Symlink { target: "x".to_string() }),
                ],
            },
        ),
        named("a", Entry::File { offset: 3, size: 0 }),
    ]);
    let extraction = extract(&t, "base/dir", b"0123");
    assert_eq!(
        extraction,
        Extraction {
            actions: vec![
                dir("base/dir"),
                file("base/dir/z", b"12"),
                dir("base/dir/d"),
                file("base/dir/d/x", b"0"),
                dir("base/dir/d/e"),
                file("base/dir/d/l", b"x"),
                file("base/dir/a", b""),
            ],
            failure: None,
        }
    );
}

#[test]
fn empty_tree_creates_the_destination() {
    let extraction = extract(&tree(vec![]), "out", b"unused");
    assert_eq!(extraction, Extraction { actions: vec![dir("out")], failure: None });
}

#[test]
fn file_of_size_zero_is_written_empty() {
    for offset in [0u64, 2, 4] {
        let t = tree(vec![named("e", Entry::File { offset, size: 0 })]);
        let extraction = extract(&t, "out", b"abcd");
        assert_eq!(extraction, Extraction { actions: vec![dir("out"), file("out/e", b"")], failure: None });
    }
}

#[test]
fn file_of_size_zero_in_an_empty_blob() {
    let t = tree(vec![named("e", Entry::File { offset: 0, size: 0 })]);
    let extraction = extract(&t, "out", b"");
    assert_eq!(extraction, Extraction { actions: vec![dir("out"), file("out/e", b"")], failure: None });
}

#[test]
fn whole_blob_can_be_one_file() {
    let t = tree(vec![named("all", Entry::File { offset: 0, size: 4 })]);
    let extraction = extract(&t, "out", b"abcd");
    assert_eq!(extraction.actions[1], file("out/all", b"abcd"));
}

#[test]
fn file_beyond_the_blob_fails() {
    for (offset, size) in [(0u64, 5u64), (4, 1), (5, 0), (2, 3), (u64::MAX, 1), (1, u64::MAX), (u64::MAX, u64::MAX)] {
        let t = tree(vec![named("big", Entry::File { offset, size })]);
        let extraction = extract(&t, "out", b"abcd");
        assert_eq!(
            extraction,
            Extraction { actions: vec![dir("out")], failure: stopped("out/big", Defect::OutOfRange) }
        );
    }
}

#[test]
fn walk_stops_at_the_first_failure() {
    let t = tree(vec![
        named("ok", Entry::File { offset: 0, size: 1 }),
        named(
            "d",
            Entry::Directory {
                children: vec![
                    named("in", Entry::File { offset: 1, size: 1 }),
                    named("bad", Entry::Malformed { defect: Defect::SizeMissing }),
                    named("late", Entry::File { offset: 0, size: 1 }),
                ],
            },
        ),
        named("later", Entry::File { offset: 9, size: 9 }),
    ]);
    let extraction = extract(&t, "out", b"ab");
    assert_eq!(
        extraction,
        Extraction {
            actions: vec![dir("out"), file("out/ok", b"a"), dir("out/d"), file("out/d/in", b"b")],
            failure: stopped("out/d/bad", Defect::SizeMissing),
        }
    );
}

#[test]
fn every_defect_is_reported_with_its_path() {
    for defect in [
        Defect::NotAnObject,
        Defect::ChildrenMissing,
        Defect::LinkNotText,
        Defect::OffsetMissing,
        Defect::OffsetNotText,
        Defect::OffsetNotDecimal,
        Defect::SizeMissing,
        Defect::SizeNotUnsigned,
        Defect::NotADirectory,
        Defect::OutOfRange,
    ] {
        let t = tree(vec![named("e", Entry::Malformed { defect })]);
        let extraction = extract(&t, "out", b"");
        assert_eq!(extraction, Extraction { actions: vec![dir("out")], failure: stopped("out/e", defect) });
    }
}

#[test]
fn directory_with_unreadable_listing_is_still_created() {
    let t = tree(vec![named("d", Entry::Malformed { defect: Defect::ChildrenNotAnObject })]);
    let extraction = extract(&t, "out", b"");
    assert_eq!(
        extraction,
        Extraction {
            actions: vec![dir("out"), dir("out/d")],
            failure: stopped("out/d", Defect::ChildrenNotAnObject),
        }
    );
}

#[test]
fn root_that_is_no_directory_fails() {
    for root in [Entry::File { offset: 0, size: 0 }, Entry::Symlink { target: "t".to_string() }] {
        let extraction = extract(&MetadataTree { root }, "out", b"");
        assert_eq!(
            extraction,
            Extraction { actions: vec![dir("out")], failure: stopped("out", Defect::NotADirectory) }
        );
    }
}

#[test]
fn malformed_root_fails_with_its_defect() {
    for defect in [Defect::ChildrenMissing, Defect::ChildrenNotAnObject] {
        let extraction = extract(&MetadataTree { root: Entry::Malformed { defect } }, "out", b"");
        assert_eq!(extraction, Extraction { actions: vec![dir("out")], failure: stopped("out", defect) });
    }
}

#[test]
fn header_without_files_fails_at_the_destination() {
    let mut source = ArchiveSource::new(archive(b"{}", b"abc"));
    let headers = source.get_headers().unwrap();
    let extraction = source.unpack_files(&headers, "out", None);
    assert_eq!(
        extraction,
        Extraction { actions: vec![dir("out")], failure: stopped("out", Defect::ChildrenMissing) }
    );
}

#[test]
fn nesting_of_depth_k_creates_k_directories() {
    let k = 6;
    let mut entry = Entry::Directory { children: vec![named("leaf", Entry::File { offset: 0, size: 1 })] };
    for level in (1..k).rev() {
        entry = Entry::Directory { children: vec![named(&format!("d{}", level + 1), entry)] };
    }
    let t = tree(vec![named("d1", entry)]);
    let extraction = extract(&t, "out", b"x");
    assert_eq!(extraction.failure, None);
    let mut expected = vec![dir("out")];
    let mut path = "out".to_string();
    for level in 1..=k {
        path = format!("{}/d{}", path, level);
        expected.push(dir(&path));
    }
    expected.push(file(&format!("{}/leaf", path), b"x"));
    assert_eq!(extraction.actions, expected);
}

#[test]
fn extracting_twice_gives_the_same_steps() {
    let t = tree(vec![
        named("a", Entry::File { offset: 0, size: 2 }),
        named("d", Entry::Directory { children: vec![named("l", Entry::Symlink { target: "a".to_string() })] }),
    ]);
    assert_eq!(extract(&t, "out", b"hi"), extract(&t, "out", b"hi"));
}

#[test]
fn names_are_joined_as_they_are() {
    let t = tree(vec![named("", Entry::File { offset: 0, size: 0 }), named("a b", Entry::File { offset: 0, size: 0 })]);
    let extraction = extract(&t, "", b"");
    assert_eq!(extraction.actions, vec![dir(""), file("/", b""), file("/a b", b"")]);
}

#[test]
fn second_run_leaves_the_same_files() {
    let t = tree(vec![
        named("a", Entry::File { offset: 0, size: 2 }),
        named("d", Entry::Directory { children: vec![named("b", Entry::File { offset: 1, size: 1 })] }),
    ]);
    let extraction = extract(&t, "out", b"hi");
    let mut disk = BTreeMap::new();
    disk.insert("out/a".to_string(), Some(b"old and longer".to_vec()));
    perform(&mut disk, &extraction);
    let once = disk.clone();
    perform(&mut disk, &extraction);
    assert_eq!(disk, once);
    assert_eq!(once["out/a"], Some(b"hi".to_vec()));
}

#[test]
fn order_of_siblings_does_not_show_on_disk() {
    let one = tree(vec![
        named("a", Entry::File { offset: 0, size: 1 }),
        named("d", Entry::Directory { children: vec![
            named("x", Entry::Symlink { target: "a".to_string() }),
            named("y", Entry::File { offset: 1, size: 2 }),
        ] }),
    ]);
    let other = tree(vec![
        named("d", Entry::Directory { children: vec![
            named("y", Entry::File { offset: 1, size: 2 }),
            named("x", Entry::Symlink { target: "a".to_string() }),
        ] }),
        named("a", Entry::File { offset: 0, size: 1 }),
    ]);
    let mut left = BTreeMap::new();
    perform(&mut left, &extract(&one, "out", b"abc"));
    let mut right = BTreeMap::new();
    perform(&mut right, &extract(&other, "out", b"abc"));
    assert_eq!(left, right);
    assert_eq!(left.len(), 5);
}

#[test]
fn extraction_recreates_the_tree() {
    let t = tree(vec![
        named("a", Entry::File { offset: 0, size: 1 }),
        named("d", Entry::Directory { children: vec![
            named("e", Entry::Directory { children: vec![named("f", Entry::File { offset: 1, size: 2 })] }),
            named("l", Entry::Symlink { target: "../a".to_string() }),
        ] }),
    ]);
    let mut disk = BTreeMap::new();
    perform(&mut disk, &extract(&t, "out", b"abc"));
    let mut expected = BTreeMap::new();
    expected.insert("out".to_string(), None);
    expected.insert("out/a".to_string(), Some(b"a".to_vec()));
    expected.insert("out/d".to_string(), None);
    expected.insert("out/d/e".to_string(), None);
    expected.insert("out/d/e/f".to_string(), Some(b"bc".to_vec()));
    expected.insert("out/d/l".to_string(), Some(b"../a".to_vec()));
    assert_eq!(disk, expected);
}

#[test]
fn entries_that_share_a_path_overwrite_each_other() {
    let t = tree(vec![
        named("a/b", Entry::File { offset: 0, size: 1 }),
        named("a", Entry::Directory { children: vec![named("b", Entry::File { offset: 1, size: 1 })] }),
    ]);
    let mut disk = BTreeMap::new();
    perform(&mut disk, &extract(&t, "out", b"xy"));
    assert_eq!(disk["out/a/b"], Some(b"y".to_vec()));
}
