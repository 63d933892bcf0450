use trs::codec::{archive_entries, archive_file_bytes, extract_entries, extract_first_file, ArchiveEntry};
use trs::engine::{
    list_rows, plan_move, plan_restore, select_index, OnDisk, RestoreMethod, SourceKind,
};
use trs::meta::{MetaMap, TrashItem};
use trs::name::generate_unique_name;
use trs::records::{encode_record, parse_record};
use trs::store::{encode_metadata, migrate_metadata, read_raw_metadata};

fn meta_of(entries: &[(&str, &str, bool)]) -> MetaMap {
    let mut m = MetaMap::new();
    for (k, p, d) in entries {
        m.insert(
            k.to_string(),
            TrashItem { path: p.to_string(), is_dir: *d },
        );
    }
    m
}

#[test]
fn record_encodes_exactly() {
    let s = encode_record(&TrashItem { path: "/home/u/file.txt".to_string(), is_dir: false });
    assert_eq!(s, "{\"path\":\"/home/u/file.txt\",\"is_dir\":false}");
    let d = encode_record(&TrashItem { path: "/tmp/d".to_string(), is_dir: true });
    assert_eq!(d, "{\"path\":\"/tmp/d\",\"is_dir\":true}");
}

#[test]
fn record_round_trips_with_escapes() {
    for path in [
        "/plain/path",
        "/with \"quotes\"",
        "/back\\slash",
        "/line\nbreak\tand\rmore",
    ] {
        let item = TrashItem { path: path.to_string(), is_dir: true };
        let s = encode_record(&item);
        let back = parse_record(&s).expect("record must parse back");
        assert_eq!(back.path, path);
        assert!(back.is_dir);
    }
}

#[test]
fn record_rejects_bare_paths() {
    assert!(parse_record("/just/a/path").is_none());
    assert!(parse_record("{\"path\":\"unterminated").is_none());
    assert!(parse_record("{\"path\":\"x\",\"is_dir\":maybe}").is_none());
}

#[test]
fn legacy_record_from_older_tool_parses() {
    // what serde_json printed for the record type in older stores
    let s = "{\"path\":\"/home/u/a \\\"b\\\"\",\"is_dir\":true}";
    let item = parse_record(s).expect("older record must parse");
    assert_eq!(item.path, "/home/u/a \"b\"");
    assert!(item.is_dir);
}

#[test]
fn unique_name_kept_when_free() {
    let existing: Vec<String> = vec![];
    let m = MetaMap::new();
    let name = generate_unique_name(
        &"note.txt.tar.gz".to_string(),
        &"/home/u/note.txt".to_string(),
        false,
        &existing,
        &m,
    );
    assert_eq!(name, "note.txt.tar.gz");
}

#[test]
fn unique_name_numbers_on_disk_collision() {
    let existing = vec!["note.txt.tar.gz".to_string()];
    let m = MetaMap::new();
    let name = generate_unique_name(
        &"note.txt.tar.gz".to_string(),
        &"/home/u/note.txt".to_string(),
        false,
        &existing,
        &m,
    );
    assert_eq!(name, "note(1).txt.tar.gz");
}

#[test]
fn unique_name_reused_for_same_item() {
    // re-trash of the same original path and type keeps the name, even
    // though the entry sits on disk
    let existing = vec!["note.txt.tar.gz".to_string()];
    let m = meta_of(&[("note.txt.tar.gz", "/home/u/note.txt", false)]);
    let name = generate_unique_name(
        &"note.txt.tar.gz".to_string(),
        &"/home/u/note.txt".to_string(),
        false,
        &existing,
        &m,
    );
    assert_eq!(name, "note.txt.tar.gz");
}

#[test]
fn unique_name_numbers_for_different_original() {
    let existing = vec!["note.txt.tar.gz".to_string()];
    let m = meta_of(&[("note.txt.tar.gz", "/home/u/note.txt", false)]);
    let name = generate_unique_name(
        &"note.txt.tar.gz".to_string(),
        &"/srv/other/note.txt".to_string(),
        false,
        &existing,
        &m,
    );
    assert_eq!(name, "note(1).txt.tar.gz");
    let existing2 = vec!["note.txt.tar.gz".to_string(), "note(1).txt.tar.gz".to_string()];
    let name2 = generate_unique_name(
        &"note.txt.tar.gz".to_string(),
        &"/third/place/note.txt".to_string(),
        false,
        &existing2,
        &m,
    );
    assert_eq!(name2, "note(2).txt.tar.gz");
}

#[test]
fn unique_name_counter_reaches_double_digits() {
    let mut existing = vec!["note.txt.tar.gz".to_string()];
    for i in 1..10 {
        existing.push(format!("note({}).txt.tar.gz", i));
    }
    let name = generate_unique_name(
        &"note.txt.tar.gz".to_string(),
        &"/home/u/note.txt".to_string(),
        false,
        &existing,
        &MetaMap::new(),
    );
    assert_eq!(name, "note(10).txt.tar.gz");
}

#[test]
fn unique_name_without_extension() {
    let existing = vec!["archive".to_string()];
    let m = MetaMap::new();
    let name = generate_unique_name(
        &"archive".to_string(),
        &"/home/u/archive".to_string(),
        true,
        &existing,
        &m,
    );
    assert_eq!(name, "archive(1)");
}

#[test]
fn meta_map_insert_get_remove() {
    let mut m = MetaMap::new();
    assert_eq!(m.len(), 0);
    m.insert("a".to_string(), TrashItem { path: "/x/a".to_string(), is_dir: false });
    m.insert("b".to_string(), TrashItem { path: "/x/b".to_string(), is_dir: true });
    m.insert("a".to_string(), TrashItem { path: "/y/a".to_string(), is_dir: false });
    assert_eq!(m.len(), 2);
    let a = m.get("a").expect("a present");
    assert_eq!(a.path, "/y/a");
    assert!(!a.is_dir);
    assert!(m.get("b").expect("b present").is_dir);
    assert!(m.get("c").is_none());
    m.remove("a");
    assert!(m.get("a").is_none());
    assert_eq!(m.len(), 1);
}

#[test]
fn corrupt_metadata_degrades_to_empty() {
    assert_eq!(read_raw_metadata("this is not a mapping").len(), 0);
    assert_eq!(read_raw_metadata("").len(), 0);
    let ok = read_raw_metadata("{\"k\":\"/v\"}");
    assert_eq!(ok.len(), 1);
    assert_eq!(ok[0].0, "k");
    assert_eq!(ok[0].1, "/v");
}

#[test]
fn legacy_values_use_probe_and_records_do_not() {
    // a store mixing a bare-string legacy value with a typed record
    let raw = vec![
        ("old".to_string(), "/gone/dir".to_string()),
        (
            "new.tar.gz".to_string(),
            "{\"path\":\"/kept/file.txt\",\"is_dir\":false}".to_string(),
        ),
    ];
    // filesystem probe: the legacy path is (still) a directory; the probe
    // value for the record entry must not matter
    let m = migrate_metadata(&raw, &vec![true, true]);
    let old = m.get("old").expect("legacy entry kept");
    assert_eq!(old.path, "/gone/dir");
    assert!(old.is_dir);
    let newer = m.get("new.tar.gz").expect("record entry kept");
    assert_eq!(newer.path, "/kept/file.txt");
    assert!(!newer.is_dir);
}

#[test]
fn legacy_value_defaults_to_file_when_absent() {
    let raw = vec![("gone".to_string(), "/no/such/path".to_string())];
    let m = migrate_metadata(&raw, &vec![false]);
    assert!(!m.get("gone").expect("entry kept").is_dir);
}

#[test]
fn store_round_trips_through_json() {
    let m = meta_of(&[
        ("a.tar.gz", "/home/u/a", false),
        ("b", "/home/u/b", true),
        ("odd \"name\".tar.gz", "/p/odd \"name\"", false),
    ]);
    let text = encode_metadata(&m).expect("encodes");
    let raw = read_raw_metadata(&text);
    assert_eq!(raw.len(), 3);
    let back = migrate_metadata(&raw, &vec![false; raw.len()]);
    for key in ["a.tar.gz", "b", "odd \"name\".tar.gz"] {
        let lhs = m.get(key).expect("present before");
        let rhs = back.get(key).expect("present after");
        assert_eq!(lhs.path, rhs.path);
        assert_eq!(lhs.is_dir, rhs.is_dir);
    }
}

#[test]
fn unsafe_archive_paths_are_refused() {
    for bad in ["../evil", "./a", "a//b", "", "/abs", "a/", "a/./b", "a/../b"] {
        let entries = vec![ArchiveEntry { path: bad.to_string(), is_dir: false, data: vec![1] }];
        assert_eq!(archive_entries(&entries).unwrap_err(), trs::TrashError::IoError);
    }
    // dotted names that are not `.`/`..` components stay acceptable
    for good in [".hidden", "a.b", "a/...x", "..._"] {
        let entries = vec![ArchiveEntry { path: good.to_string(), is_dir: false, data: vec![1] }];
        let bytes = archive_entries(&entries).expect("safe path archives");
        assert_eq!(extract_entries(&bytes).unwrap()[0].path, *good);
    }
}

#[test]
fn fallback_target_strips_stacked_suffixes() {
    // a trashed file `x.gz` is stored as `x.gz.tar.gz`; with its record
    // lost, the best-effort target strips both suffixes
    let p = plan_restore(
        &"x.gz.tar.gz".to_string(),
        OnDisk::FileEntry,
        &"/cwd".to_string(),
        MetaMap::new(),
    )
    .unwrap();
    assert_eq!(p.target, "/cwd/x");
    // a root working directory does not double the separator
    let p = plan_restore(
        &"a.tar.gz".to_string(),
        OnDisk::FileEntry,
        &"/".to_string(),
        MetaMap::new(),
    )
    .unwrap();
    assert_eq!(p.target, "/a");
}

#[test]
fn listing_strips_stacked_suffixes() {
    let scan = vec![
        ("x.tar.gz.tar.gz".to_string(), false),
        ("y.gz.gz".to_string(), false),
    ];
    let rows = list_rows(&scan, &MetaMap::new());
    assert_eq!(rows[0].display, "x");
    assert_eq!(rows[1].display, "y");
}

#[test]
fn corrupt_archive_bytes_are_an_io_error() {
    let garbage: Vec<u8> = b"not a gzip stream at all".to_vec();
    assert_eq!(extract_entries(&garbage).unwrap_err(), trs::TrashError::IoError);
    assert_eq!(extract_first_file(&garbage).unwrap_err(), trs::TrashError::IoError);
    assert_eq!(trs::codec::decompress_legacy(&garbage).unwrap_err(), trs::TrashError::IoError);
}

#[test]
fn archive_single_file_round_trips() {
    let content: Vec<u8> = b"hello trash\n".to_vec();
    let bytes = archive_file_bytes(&"hello.txt".to_string(), &content).expect("archives");
    // it really is compressed container data, not the input handed back
    assert_ne!(bytes, content);
    let back = extract_first_file(&bytes).expect("extracts");
    assert_eq!(back, content);
    let entries = extract_entries(&bytes).expect("parses");
    assert_eq!(entries.len(), 1);
    assert_eq!(entries[0].path, "hello.txt");
    assert!(!entries[0].is_dir);
    assert_eq!(entries[0].data, content);
}

#[test]
fn archive_tree_round_trips() {
    let tree = vec![
        ArchiveEntry { path: "proj".to_string(), is_dir: true, data: vec![] },
        ArchiveEntry { path: "proj/a.txt".to_string(), is_dir: false, data: b"aaa".to_vec() },
        ArchiveEntry { path: "proj/sub".to_string(), is_dir: true, data: vec![] },
        ArchiveEntry { path: "proj/sub/b.bin".to_string(), is_dir: false, data: vec![0, 1, 2, 255] },
        ArchiveEntry { path: "proj/empty".to_string(), is_dir: true, data: vec![] },
    ];
    let bytes = archive_entries(&tree).expect("archives");
    let back = extract_entries(&bytes).expect("extracts");
    assert_eq!(back.len(), tree.len());
    for (lhs, rhs) in tree.iter().zip(back.iter()) {
        assert_eq!(lhs.path, rhs.path);
        assert_eq!(lhs.is_dir, rhs.is_dir);
        assert_eq!(lhs.data, rhs.data);
    }
}

#[test]
fn plan_move_file_gets_archive_name() {
    let plan = plan_move(
        &"report.txt".to_string(),
        &"/home/u/report.txt".to_string(),
        SourceKind::FileItem,
        &vec![],
        MetaMap::new(),
    );
    assert_eq!(plan.trash_name, "report.txt.tar.gz");
    assert!(!plan.is_dir);
    assert!(!plan.rename_raw);
    let rec = plan.meta.get("report.txt.tar.gz").expect("recorded");
    assert_eq!(rec.path, "/home/u/report.txt");
}

#[test]
fn plan_move_empty_dir_renames_raw() {
    let plan = plan_move(
        &"olddir".to_string(),
        &"/home/u/olddir".to_string(),
        SourceKind::EmptyDir,
        &vec![],
        MetaMap::new(),
    );
    assert_eq!(plan.trash_name, "olddir");
    assert!(plan.is_dir);
    assert!(plan.rename_raw);
}

#[test]
fn same_base_name_from_two_places() {
    // two files called report.txt, trashed from different directories
    let plan1 = plan_move(
        &"report.txt".to_string(),
        &"/home/u/report.txt".to_string(),
        SourceKind::FileItem,
        &vec![],
        MetaMap::new(),
    );
    assert_eq!(plan1.trash_name, "report.txt.tar.gz");
    let disk = vec![plan1.trash_name.clone()];
    let plan2 = plan_move(
        &"report.txt".to_string(),
        &"/home/u/backup/report.txt".to_string(),
        SourceKind::FileItem,
        &disk,
        plan1.meta,
    );
    assert_eq!(plan2.trash_name, "report(1).txt.tar.gz");

    // the listing shows both, each with its own original location
    let scan = vec![
        ("report.txt.tar.gz".to_string(), false),
        ("report(1).txt.tar.gz".to_string(), false),
        (".metadata".to_string(), false),
    ];
    let rows = list_rows(&scan, &plan2.meta);
    assert_eq!(rows.len(), 2);
    assert_eq!(rows[0].display, "report.txt");
    assert_eq!(rows[0].location, "/home/u/report.txt");
    assert_eq!(rows[1].display, "report(1).txt");
    assert_eq!(rows[1].location, "/home/u/backup/report.txt");

    // restoring the second goes back to the backup copy and drops only
    // that record
    let plan = plan_restore(
        &"report(1).txt.tar.gz".to_string(),
        OnDisk::FileEntry,
        &"/cwd".to_string(),
        plan2.meta,
    )
    .expect("restorable");
    assert_eq!(plan.target, "/home/u/backup/report.txt");
    assert_eq!(plan.method, RestoreMethod::ExtractSingle);
    assert!(plan.meta.get("report(1).txt.tar.gz").is_none());
    assert!(plan.meta.get("report.txt.tar.gz").is_some());
}

#[test]
fn retrash_same_item_reuses_name() {
    let plan1 = plan_move(
        &"report.txt".to_string(),
        &"/home/u/report.txt".to_string(),
        SourceKind::FileItem,
        &vec![],
        MetaMap::new(),
    );
    let disk = vec![plan1.trash_name.clone()];
    let len_before = plan1.meta.len();
    let plan2 = plan_move(
        &"report.txt".to_string(),
        &"/home/u/report.txt".to_string(),
        SourceKind::FileItem,
        &disk,
        plan1.meta,
    );
    assert_eq!(plan2.trash_name, "report.txt.tar.gz");
    assert_eq!(plan2.meta.len(), len_before);
}

#[test]
fn restore_dispatch_by_suffix_and_type() {
    let m = meta_of(&[
        ("tree.tar.gz", "/home/u/tree", true),
        ("file.tar.gz", "/home/u/file", false),
        ("old.gz", "/home/u/old", false),
        ("plain", "/home/u/plain", false),
        ("rawdir", "/home/u/rawdir", true),
    ]);
    let cwd = "/cwd".to_string();
    let p = plan_restore(&"tree.tar.gz".to_string(), OnDisk::FileEntry, &cwd, meta_of(&[(
        "tree.tar.gz",
        "/home/u/tree",
        true,
    )]))
    .unwrap();
    assert_eq!(p.method, RestoreMethod::UnpackTree);
    let p = plan_restore(&"file.tar.gz".to_string(), OnDisk::FileEntry, &cwd, meta_of(&[(
        "file.tar.gz",
        "/home/u/file",
        false,
    )]))
    .unwrap();
    assert_eq!(p.method, RestoreMethod::ExtractSingle);
    let p = plan_restore(&"old.gz".to_string(), OnDisk::FileEntry, &cwd, meta_of(&[(
        "old.gz",
        "/home/u/old",
        false,
    )]))
    .unwrap();
    assert_eq!(p.method, RestoreMethod::GunzipStream);
    let p = plan_restore(&"plain".to_string(), OnDisk::FileEntry, &cwd, meta_of(&[(
        "plain",
        "/home/u/plain",
        false,
    )]))
    .unwrap();
    assert_eq!(p.method, RestoreMethod::CopyFile);
    let p = plan_restore(&"rawdir".to_string(), OnDisk::DirEntry, &cwd, m).unwrap();
    assert_eq!(p.method, RestoreMethod::RenameDir);
    assert_eq!(p.target, "/home/u/rawdir");
}

#[test]
fn restore_missing_entry_is_not_found() {
    let r = plan_restore(
        &"ghost.tar.gz".to_string(),
        OnDisk::MissingEntry,
        &"/cwd".to_string(),
        MetaMap::new(),
    );
    assert_eq!(r.unwrap_err(), trs::TrashError::NotFound);
    // metadata says directory but the entry is a plain directory-less type
    let m = meta_of(&[("odd", "/home/u/odd", false)]);
    let r = plan_restore(&"odd".to_string(), OnDisk::DirEntry, &"/cwd".to_string(), m);
    assert_eq!(r.unwrap_err(), trs::TrashError::NotFound);
}

#[test]
fn restore_without_record_falls_back_to_cwd() {
    let p = plan_restore(
        &"lost.txt.tar.gz".to_string(),
        OnDisk::FileEntry,
        &"/current/dir".to_string(),
        MetaMap::new(),
    )
    .unwrap();
    assert_eq!(p.target, "/current/dir/lost.txt");
    assert!(!p.is_dir);
    assert_eq!(p.method, RestoreMethod::ExtractSingle);
}

#[test]
fn listing_empty_root_has_no_rows() {
    let rows = list_rows(&vec![], &MetaMap::new());
    assert!(rows.is_empty());
    let only_meta = vec![(".metadata".to_string(), false)];
    assert!(list_rows(&only_meta, &MetaMap::new()).is_empty());
}

#[test]
fn listing_marks_directories_and_unknowns() {
    let m = meta_of(&[("tree.tar.gz", "/home/u/tree", true)]);
    let scan = vec![
        ("tree.tar.gz".to_string(), false),
        ("stray.txt".to_string(), false),
    ];
    let rows = list_rows(&scan, &m);
    assert_eq!(rows.len(), 2);
    assert_eq!(rows[0].display, "tree/");
    assert!(rows[0].is_dir);
    assert_eq!(rows[0].location, "/home/u/tree");
    assert_eq!(rows[1].display, "stray.txt");
    assert_eq!(rows[1].location, "Unknown");
}

#[test]
fn listing_probes_suffix_variants() {
    // an older store that keyed the entry without its archive suffix
    let m = meta_of(&[("photo", "/home/u/photo.png", false)]);
    let scan = vec![("photo.tar.gz".to_string(), false)];
    let rows = list_rows(&scan, &m);
    assert_eq!(rows[0].location, "/home/u/photo.png");
}

#[test]
fn selection_parses_and_validates() {
    assert_eq!(select_index(&" 2 \n".to_string(), 3), Some(1));
    assert_eq!(select_index(&"1".to_string(), 3), Some(0));
    assert_eq!(select_index(&"3".to_string(), 3), Some(2));
    assert_eq!(select_index(&"0".to_string(), 3), None);
    assert_eq!(select_index(&"4".to_string(), 3), None);
    assert_eq!(select_index(&"two".to_string(), 3), None);
    assert_eq!(select_index(&"".to_string(), 3), None);
    assert_eq!(select_index(&"  ".to_string(), 3), None);
    assert_eq!(select_index(&"99999999999999999999999999".to_string(), 3), None);
}
