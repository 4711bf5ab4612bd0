use devil_connection_patcher::asar::archive::{
    archive_tree, chunk_len, frame_archive, is_unpacked, plan_extract, read_archive_prefix,
    unpacked_dir_for, ArchiveFault, ArchiveFile, ExtractOp,
};
use devil_connection_patcher::asar::entries::{
    collect_entries, entry_totals, unpacked_name, EntryFault, EntryKind,
};
use devil_connection_patcher::asar::error::{AsarError, HeaderProblem};
use devil_connection_patcher::asar::header::{data_offset, frame_header, read_frame, HeaderFault};
use devil_connection_patcher::asar::json::{get_member, JsonNumber, JsonValue};
use devil_connection_patcher::asar::pack::{
    check_header_len, file_entry, holds_backslash, pack_tree, patch_integrity, totals, unpack_rule,
    unpack_rule_checked, FileEntry, PackOptions,
};

fn s(x: &str) -> String {
    x.to_string()
}

fn comps(p: &str) -> Vec<String> {
    p.split('/').map(s).collect()
}

fn obj(members: Vec<(&str, JsonValue)>) -> JsonValue {
    JsonValue::Object(members.into_iter().map(|(k, v)| (s(k), v)).collect())
}

#[test]
fn frame_roundtrip() {
    let json = br#"{"files":{}}"#;
    let (bytes, offset) = frame_header(json);
    assert_eq!(bytes.len() as u64, offset);
    assert_eq!(&bytes[0..4], &4u32.to_le_bytes());
    assert_eq!(offset, 16 + 12);
    let layout = read_frame(&bytes).unwrap();
    assert_eq!(layout.json_len, 12);
    assert_eq!(layout.pad_len, 0);
    assert_eq!(data_offset(&layout), offset);
    assert_eq!(&bytes[16..28], json);
}

#[test]
fn frame_pads_to_four_bytes() {
    let json = b"{}x";
    let (bytes, offset) = frame_header(json);
    assert_eq!(offset, 20);
    assert_eq!(bytes.len(), 20);
    assert_eq!(bytes[19], 0);
    let layout = read_frame(&bytes).unwrap();
    assert_eq!(layout.pad_len, 1);
    assert_eq!(layout.inner_size, 8);
    assert_eq!(layout.header_buf_len, 12);
}

#[test]
fn frame_faults() {
    assert_eq!(read_frame(&[4, 0, 0]), Err(HeaderFault::Truncated));
    let (mut bytes, _) = frame_header(b"{}");
    bytes[0] = 5;
    assert!(read_frame(&bytes).is_err());
}

#[test]
fn pack_tree_then_collect_entries() {
    let rule = unpack_rule(&PackOptions { unpack: Some(s("*.node")) }).unwrap();
    let files = vec![
        file_entry(comps("package.json"), 16, &rule),
        file_entry(comps("lib/index.js"), 21, &rule),
        file_entry(comps("native/hello.node"), 17, &rule),
        file_entry(comps("native/libextra.so"), 7, &rule),
    ];
    assert!(!files[0].unpacked);
    assert!(files[2].unpacked);
    assert!(!files[3].unpacked);
    assert_eq!(totals(&files), (61, 4));
    let tree = pack_tree(&files).unwrap();
    let entries = collect_entries(&tree).unwrap();
    let paths: Vec<&str> = entries.iter().map(|e| e.path.as_str()).collect();
    assert_eq!(
        paths,
        vec!["package.json", "lib/index.js", "native/hello.node", "native/libextra.so"]
    );
    match entries[0].kind {
        EntryKind::Packed { offset } => assert_eq!(offset, 0),
        _ => panic!("packed expected"),
    }
    match entries[1].kind {
        EntryKind::Packed { offset } => assert_eq!(offset, 16),
        _ => panic!("packed expected"),
    }
    assert!(matches!(entries[2].kind, EntryKind::Unpacked));
    match entries[3].kind {
        EntryKind::Packed { offset } => assert_eq!(offset, 37),
        _ => panic!("packed expected"),
    }
    assert_eq!(entry_totals(&entries), (61, 4));
    assert_eq!(entries[1].as_rel_path('\\'), "lib\\index.js");
}

#[test]
fn recorded_integrity_keeps_the_entries() {
    let rule = unpack_rule(&PackOptions { unpack: Some(s("*.node")) }).unwrap();
    let files = vec![
        file_entry(comps("a.txt"), 3, &rule),
        file_entry(comps("d/b.node"), 4, &rule),
        file_entry(comps("d/c.txt"), 5, &rule),
    ];
    let mut tree = pack_tree(&files).unwrap();
    let before = collect_entries(&tree).unwrap();
    for f in &files {
        let mut h = devil_connection_patcher::asar::integrity::IntegrityHasher::new();
        h.update(b"xyz");
        let integrity = h.finalize();
        tree = patch_integrity(tree, &f.components, &integrity).unwrap();
    }
    let after = collect_entries(&tree).unwrap();
    let paths: Vec<&str> = after.iter().map(|e| e.path.as_str()).collect();
    assert_eq!(paths, vec!["a.txt", "d/b.node", "d/c.txt"]);
    assert_eq!(before.len(), after.len());
    for (x, y) in before.iter().zip(after.iter()) {
        assert_eq!(x.path, y.path);
        assert_eq!(x.size, y.size);
    }
    assert!(matches!(after[1].kind, EntryKind::Unpacked));
    match after[2].kind {
        EntryKind::Packed { offset } => assert_eq!(offset, 3),
        _ => panic!("packed expected"),
    }
}

#[test]
fn pack_tree_refuses_file_under_file() {
    let rule = unpack_rule(&PackOptions { unpack: None }).unwrap();
    let files = vec![file_entry(comps("a"), 1, &rule), file_entry(comps("a/b"), 1, &rule)];
    match pack_tree(&files) {
        Err(AsarError::MalformedHeader(_)) => {}
        other => panic!("unexpected {:?}", other.is_ok()),
    }
}

#[test]
fn bad_glob_is_refused() {
    assert!(matches!(
        unpack_rule(&PackOptions { unpack: Some(s("a[")) }),
        Err(AsarError::BadGlob(_))
    ));
}

#[test]
fn header_length_must_not_change() {
    assert!(check_header_len(10, 10).is_ok());
    assert!(matches!(
        check_header_len(10, 11),
        Err(AsarError::MalformedHeader(HeaderProblem::LengthChanged { was: 10, now: 11 }))
    ));
}

#[test]
fn entry_errors() {
    let tree = obj(vec![("files", obj(vec![("a", obj(vec![("offset", JsonValue::Str(s("0")))]))]))]);
    let e = collect_entries(&tree).err().unwrap();
    assert_eq!(e.path, "a");
    assert!(matches!(e.reason, EntryFault::MissingSize));
    let tree = obj(vec![(
        "files",
        obj(vec![(
            "a",
            obj(vec![
                ("size", JsonValue::Number(JsonNumber::Unsigned(3))),
                ("offset", JsonValue::Str(s("x1"))),
            ]),
        )]),
    )]);
    let e = collect_entries(&tree).err().unwrap();
    assert!(matches!(e.reason, EntryFault::OffsetNotU64(_)));
    let tree = obj(vec![("nofiles", JsonValue::Null)]);
    assert!(matches!(collect_entries(&tree).err().unwrap().reason, EntryFault::MissingFiles));
}

#[test]
fn link_entries_hold_their_target() {
    let tree = obj(vec![("files", obj(vec![("l", obj(vec![("link", JsonValue::Str(s("x/y")))]))]))]);
    let es = collect_entries(&tree).unwrap();
    assert_eq!(es[0].size, 3);
    match &es[0].kind {
        EntryKind::Link { target } => assert_eq!(target, "x/y"),
        _ => panic!("link expected"),
    }
}

#[test]
fn sidecar_names() {
    assert_eq!(unpacked_name(Some("app.asar")), "app.asar.unpacked");
    assert_eq!(unpacked_name(None), "app.asar.unpacked");
    assert_eq!(unpacked_dir_for("/x/y.asar"), "/x/y.asar.unpacked");
}

#[test]
fn archive_prefix_and_frame() {
    let framed = frame_archive(br#"{"files":{}}"#).unwrap();
    let mut prefix = [0u8; 16];
    prefix.copy_from_slice(&framed[..16]);
    assert_eq!(read_archive_prefix(&prefix), Ok((12, 28)));
    prefix[0] = 3;
    assert_eq!(read_archive_prefix(&prefix), Err(ArchiveFault::BadPickleSize));
}

#[test]
fn archive_tree_and_plan() {
    let files = vec![
        ArchiveFile { components: comps("a/b.js"), size: 5, unpacked: false, executable: true },
        ArchiveFile { components: comps("a/c.node"), size: 9, unpacked: true, executable: false },
        ArchiveFile { components: comps("d.txt"), size: 4, unpacked: false, executable: false },
    ];
    let tree = archive_tree(&files);
    let root = match &tree {
        JsonValue::Object(m) => m,
        _ => panic!("object expected"),
    };
    let files_obj = match get_member(root, "files").unwrap() {
        JsonValue::Object(m) => m,
        _ => panic!("object expected"),
    };
    let ops = plan_extract(files_obj);
    assert_eq!(ops.len(), 4);
    assert!(matches!(&ops[0], ExtractOp::Dir { rel } if rel == &vec![s("a")]));
    assert!(
        matches!(&ops[1], ExtractOp::Packed { rel, offset: 0, size: 5 } if rel == &comps("a/b.js"))
    );
    assert!(matches!(&ops[2], ExtractOp::Unpacked { rel } if rel == &comps("a/c.node")));
    assert!(matches!(&ops[3], ExtractOp::Packed { offset: 5, size: 4, .. }));
}

#[test]
fn unpack_patterns_and_chunks() {
    let pats = vec![s("*.node"), s("*.dll"), s("*.so"), s("*.dylib")];
    assert!(is_unpacked(&pats, "steam_api64.dll"));
    assert!(is_unpacked(&pats, "libfoo.dylib"));
    assert!(!is_unpacked(&pats, "index.js"));
    assert_eq!(chunk_len(10, 4), 4);
    assert_eq!(chunk_len(3, 4), 3);
    assert_eq!(chunk_len(0, 4), 0);
}

#[test]
fn checked_unpack_rule_refuses_bad_globs() {
    assert!(matches!(
        unpack_rule_checked(&PackOptions { unpack: Some(s("[")) }),
        Some(Err(AsarError::BadGlob(_)))
    ));
    assert!(matches!(unpack_rule_checked(&PackOptions { unpack: Some(s("*.node")) }), Some(Ok(_))));
    assert!(matches!(unpack_rule_checked(&PackOptions { unpack: None }), Some(Ok(_))));
    assert!(holds_backslash("a\\b"));
    assert!(!holds_backslash("a/b"));
}
