use file_integrity_checker::digest::{digest_hex, same_digest};
use file_integrity_checker::registry::{
    AddError, FileEntry, LoadError, Registry, RootScan, ScannedFile, Status, Timestamp,
};
use file_integrity_checker::verify::{
    cmd_verify, find_new_files, summary_text, verify_registry, Observation, VerifyResult,
};

fn at(secs: i64) -> Timestamp {
    Timestamp { secs, nanos: 0 }
}

fn file(path: &str, content: &str) -> ScannedFile {
    ScannedFile { path: path.to_string(), content: Some(content.as_bytes().to_vec()) }
}

fn unreadable(path: &str) -> ScannedFile {
    ScannedFile { path: path.to_string(), content: None }
}

fn read(content: &str) -> Observation {
    Observation::Readable(content.as_bytes().to_vec())
}

fn entry_of<'a>(r: &'a Registry, path: &str) -> &'a FileEntry {
    r.get(&path.to_string()).expect("tracked path")
}

#[test]
fn digest_of_known_inputs() {
    assert_eq!(
        digest_hex(b"abc"),
        "ba7816bf8f01cfea414140de5dae2223b00361a396177a9cb410ff61f20015ad"
    );
    assert_eq!(
        digest_hex(b""),
        "e3b0c44298fc1c149afbf4c8996fb92427ae41e4649b934ca495991b7852b855"
    );
}

#[test]
fn digest_is_deterministic() {
    assert_eq!(digest_hex(b"same bytes"), digest_hex(b"same bytes"));
    assert_ne!(digest_hex(b"original"), digest_hex(b"modified"));
    assert_eq!(digest_hex(b"x").len(), 64);
}

#[test]
fn digest_comparison_ignores_hex_case() {
    let lower = "ba7816bf8f01cfea414140de5dae2223b00361a396177a9cb410ff61f20015ad".to_string();
    let upper = lower.to_uppercase();
    assert!(same_digest(&lower, &upper));
    assert!(!same_digest(&lower, &digest_hex(b"abd")));
    assert!(!same_digest(&lower, &"ba78".to_string()));
}

#[test]
fn add_single_file_records_clean_entry() {
    let mut r = Registry::new();
    assert_eq!(r.add_scanned(&RootScan::File(file("a.txt", "x")), at(5)), Ok(()));
    assert_eq!(r.len(), 1);
    let e = entry_of(&r, "a.txt");
    assert_eq!(e.hash, digest_hex(b"x"));
    assert_eq!(e.last_seen, at(5));
    assert_eq!(e.status, Status::Clean);
}

#[test]
fn add_path_stamps_current_time() {
    let mut r = Registry::new();
    assert_eq!(r.add_path(&RootScan::File(file("now.txt", "t"))), Ok(()));
    let e = entry_of(&r, "now.txt");
    assert!(e.last_seen.secs > 0);
    assert_eq!(e.hash, digest_hex(b"t"));
}

#[test]
fn add_twice_keeps_one_clean_entry() {
    let mut r = Registry::new();
    r.add_scanned(&RootScan::File(file("c.txt", "same")), at(1)).unwrap();
    let first = entry_of(&r, "c.txt").hash.clone();
    r.add_scanned(&RootScan::File(file("c.txt", "same")), at(2)).unwrap();
    assert_eq!(r.len(), 1);
    let e = entry_of(&r, "c.txt");
    assert_eq!(e.hash, first);
    assert_eq!(e.status, Status::Clean);
    assert_eq!(e.last_seen, at(2));
}

#[test]
fn readding_resets_status_and_digest() {
    let mut r = Registry::new();
    r.add_scanned(&RootScan::File(file("f.txt", "one")), at(1)).unwrap();
    verify_registry(&mut r, &vec![read("two")]);
    assert_eq!(entry_of(&r, "f.txt").status, Status::Modified);
    r.add_scanned(&RootScan::File(file("f.txt", "two")), at(3)).unwrap();
    let e = entry_of(&r, "f.txt");
    assert_eq!(e.status, Status::Clean);
    assert_eq!(e.hash, digest_hex(b"two"));
}

#[test]
fn add_directory_stamps_every_file_alike() {
    let mut r = Registry::new();
    let files = vec![file("d/a", "1"), unreadable("d/b"), file("d/c", "3")];
    assert_eq!(r.add_scanned(&RootScan::Directory(files), at(9)), Ok(()));
    assert_eq!(r.len(), 2);
    assert_eq!(entry_of(&r, "d/a").last_seen, at(9));
    assert_eq!(entry_of(&r, "d/c").last_seen, at(9));
    assert!(r.get(&"d/b".to_string()).is_none());
}

#[test]
fn add_empty_directory_is_noop() {
    let mut r = Registry::new();
    r.add_scanned(&RootScan::File(file("keep.txt", "k")), at(1)).unwrap();
    assert_eq!(r.add_scanned(&RootScan::Directory(Vec::new()), at(2)), Ok(()));
    assert_eq!(r.len(), 1);
}

#[test]
fn add_rejects_missing_root_and_unreadable_file() {
    let mut r = Registry::new();
    assert_eq!(r.add_scanned(&RootScan::Neither, at(1)), Err(AddError::NotFileOrDirectory));
    assert_eq!(
        r.add_scanned(&RootScan::File(unreadable("locked.txt")), at(1)),
        Err(AddError::Unreadable)
    );
    assert_eq!(r.len(), 0);
}

#[test]
fn verify_missing_file() {
    let mut r = Registry::new();
    r.add_scanned(&RootScan::File(file("a.txt", "x")), at(1)).unwrap();
    let res = verify_registry(&mut r, &vec![Observation::Absent]);
    assert_eq!(entry_of(&r, "a.txt").status, Status::Missing);
    assert_eq!((res.total, res.missing, res.clean, res.modified), (1, 1, 0, 0));
}

#[test]
fn verify_modified_file() {
    let mut r = Registry::new();
    r.add_scanned(&RootScan::File(file("b.txt", "original")), at(1)).unwrap();
    let res = verify_registry(&mut r, &vec![read("modified")]);
    assert_eq!(entry_of(&r, "b.txt").status, Status::Modified);
    assert_eq!((res.total, res.modified, res.clean, res.missing), (1, 1, 0, 0));
}

#[test]
fn verify_unchanged_file() {
    let mut r = Registry::new();
    r.add_scanned(&RootScan::File(file("c.txt", "stable")), at(1)).unwrap();
    let res = verify_registry(&mut r, &vec![read("stable")]);
    assert_eq!(entry_of(&r, "c.txt").status, Status::Clean);
    assert_eq!((res.total, res.clean, res.modified, res.missing), (1, 1, 0, 0));
    assert_eq!(entry_of(&r, "c.txt").last_seen, at(1));
}

#[test]
fn verify_accepts_uppercase_stored_digest() {
    let mut r = Registry::new();
    let upper = digest_hex(b"stable").to_uppercase();
    r.upsert("u.txt".to_string(), upper, at(1));
    let res = verify_registry(&mut r, &vec![read("stable")]);
    assert_eq!(res.clean, 1);
}

#[test]
fn verify_skips_unreadable_entry() {
    let mut r = Registry::new();
    let files = vec![file("p", "1"), file("q", "2"), file("s", "3"), file("t", "4")];
    r.add_scanned(&RootScan::Directory(files), at(1)).unwrap();
    let observed: Vec<Observation> = r
        .entries
        .iter()
        .map(|e| match e.path.as_str() {
            "p" => Observation::Unreadable,
            "q" => Observation::Absent,
            "s" => read("changed"),
            _ => read("4"),
        })
        .collect();
    let res = verify_registry(&mut r, &observed);
    assert_eq!(res.total, 3);
    assert_eq!(res.unreadable, 1);
    assert_eq!((res.clean, res.modified, res.missing), (1, 1, 1));
    assert_eq!(entry_of(&r, "p").status, Status::Clean);
    assert_eq!(entry_of(&r, "q").status, Status::Missing);
    assert_eq!(entry_of(&r, "s").status, Status::Modified);
    assert_eq!(entry_of(&r, "t").status, Status::Clean);
}

#[test]
fn new_file_discovery_reports_untracked() {
    let mut r = Registry::new();
    r.add_scanned(&RootScan::File(file("c.txt", "stable")), at(1)).unwrap();
    let found = vec!["c.txt".to_string(), "d.txt".to_string()];
    assert_eq!(find_new_files(&r, &found), vec!["d.txt".to_string()]);
    assert!(r.get(&"d.txt".to_string()).is_none());
    assert_eq!(r.len(), 1);
}

#[test]
fn listing_round_trip() {
    let mut r = Registry::new();
    let files = vec![file("x/1", "one"), file("x/2", "two")];
    r.add_scanned(&RootScan::Directory(files), at(7)).unwrap();
    verify_registry(&mut r, &vec![Observation::Absent, read("two")]);
    let listing = r.to_entries();
    let back = Registry::from_entries(&listing).expect("listing reads back");
    assert_eq!(back.len(), r.len());
    for e in &r.entries {
        let b = entry_of(&back, &e.path);
        assert_eq!(b.hash, e.hash);
        assert_eq!(b.last_seen, e.last_seen);
        assert_eq!(b.status, e.status);
    }
}

#[test]
fn listing_with_bad_keys_is_refused() {
    let e = FileEntry {
        path: "a".to_string(),
        hash: digest_hex(b"a"),
        last_seen: at(1),
        status: Status::Clean,
    };
    let mismatched = vec![("b".to_string(), e.clone())];
    assert_eq!(Registry::from_entries(&mismatched).err(), Some(LoadError::KeyMismatch));
    let doubled = vec![("a".to_string(), e.clone()), ("a".to_string(), e)];
    assert_eq!(Registry::from_entries(&doubled).err(), Some(LoadError::DuplicatePath));
}

#[test]
fn summary_lists_every_count() {
    let res = VerifyResult { total: 12, modified: 1, missing: 1, clean: 10, unreadable: 0 };
    assert_eq!(
        summary_text(&res),
        "Verified 12 entries:\n  Clean: 10\n  Modified: 1\n  Missing: 1\n  Unreadable: 0"
    );
}

#[test]
fn test_add_and_verify_detects_change() {
    let mut r = Registry::new();
    r.add_path(&RootScan::File(file("test_temp_file.txt", "original"))).unwrap();
    let text = cmd_verify(&mut r, &vec![read("modified")]);
    assert!(text.contains("Modified"));
    assert!(text.contains("Modified: 1"));
    assert_eq!(entry_of(&r, "test_temp_file.txt").status, Status::Modified);
}
