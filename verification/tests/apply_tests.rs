use refix::apply::{Change, FileChangeSet, Patch};

fn change(file: &str, start: usize, end: usize, bytes: &[u8]) -> Change {
    Change {
        file: file.to_owned(),
        patch: Patch {
            location: start..end,
            bytes: bytes.to_vec(),
        },
    }
}

#[test]
fn test_group_and_apply() {
    // The same edits as the reference scenario, applied to an in-memory
    // buffer instead of a file on disk.
    let original = b"Hello, world!";

    {
        let grouped = FileChangeSet::group(vec![change("f", 7, 12, b"there")]).unwrap();
        assert_eq!(grouped.len(), 1);
        assert_eq!(grouped[0].file_name(), "f");
        assert_eq!(grouped[0].apply_to(original), b"Hello, there!");
    }

    {
        let grouped = FileChangeSet::group(vec![
            change("f", 7, 12, b"there"),
            change("f", 1, 1, b"??"),
        ])
        .unwrap();
        assert_eq!(grouped.len(), 1);
        assert_eq!(grouped[0].apply_to(original), b"H??ello, there!");
    }

    {
        let grouped = FileChangeSet::group(vec![
            change("f", 7, 12, b"there"),
            change("f", 1, 1, b"??"),
            change("f", 1, 4, b"!!"),
        ])
        .unwrap();
        assert_eq!(grouped.len(), 1);
        assert_eq!(grouped[0].apply_to(original), b"H??!!o, there!");
    }
}

#[test]
fn test_apply_order_independent() {
    // Pairwise separated patches with distinct starts: any arrival order
    // rewrites the file identically.
    let a = vec![
        change("f", 0, 2, b"AA"),
        change("f", 4, 5, b""),
        change("f", 7, 9, b"ZZZZ"),
    ];
    let b = vec![
        change("f", 7, 9, b"ZZZZ"),
        change("f", 0, 2, b"AA"),
        change("f", 4, 5, b""),
    ];
    let content = b"0123456789";
    let ga = FileChangeSet::group(a).unwrap();
    let gb = FileChangeSet::group(b).unwrap();
    assert_eq!(ga[0].apply_to(content), gb[0].apply_to(content));
    assert_eq!(ga[0].apply_to(content), b"AA2356ZZZZ9");
}

#[test]
fn test_overlapping_patches_rejected() {
    // Two overlapping ranges on one file reject the whole run.
    let r = FileChangeSet::group(vec![
        change("f", 0, 5, b"x"),
        change("f", 3, 8, b"y"),
    ]);
    assert!(r.is_err());

    // Even when another file's patches are fine.
    let r = FileChangeSet::group(vec![
        change("other", 0, 1, b"ok"),
        change("f", 0, 5, b"x"),
        change("f", 3, 8, b"y"),
    ]);
    assert!(r.is_err());
}

#[test]
fn test_group_splits_by_file() {
    let r = FileChangeSet::group(vec![
        change("a", 5, 6, b"x"),
        change("b", 0, 1, b"y"),
        change("a", 0, 1, b"z"),
    ])
    .unwrap();
    assert_eq!(r.len(), 2);
    assert_eq!(r[0].file_name(), "a");
    assert_eq!(r[1].file_name(), "b");
    // Within one file the patches are sorted ascending by start.
    assert_eq!(r[0].len(), 2);
    assert_eq!(r[0].apply_to(b"0123456789"), b"z1234x6789");
}

#[test]
fn test_adjacent_patches_allowed() {
    // previous.end == next.start is not an overlap.
    let r = FileChangeSet::group(vec![
        change("f", 0, 2, b"A"),
        change("f", 2, 4, b"B"),
    ])
    .unwrap();
    assert_eq!(r[0].apply_to(b"abcdef"), b"ABef");
}
