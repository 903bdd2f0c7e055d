//! The inode tree: insertion, pruning, enumeration.

use backupfs::adapter::{file_attr, lookup, opendir, readdir, Errno};
use backupfs::fstree::{FileType, FS, InsertError};

fn id(n: u8) -> String {
    let mut s = String::new();
    for _ in 0..20 {
        s.push_str(&format!("{:02x}", n));
    }
    s
}

fn names_of(fs: &FS, ino: usize) -> Vec<String> {
    readdir(fs, ino, 0).unwrap().into_iter().map(|e| e.3).collect()
}

#[test]
fn domain_and_files_are_reachable() {
    let mut fs = FS::new();
    fs.insert_file("HomeDomain", "", &id(1), FileType::Folder).unwrap();
    fs.insert_file("HomeDomain", "Library", &id(2), FileType::Folder).unwrap();
    fs.insert_file("HomeDomain", "Library/Preferences", &id(3), FileType::Folder).unwrap();
    fs.insert_file("HomeDomain", "Library/Preferences/x.plist", &id(4), FileType::File).unwrap();

    let dom = lookup(&fs, 1, &"HomeDomain".to_string()).unwrap();
    let lib = lookup(&fs, dom, &"Library".to_string()).unwrap();
    let prefs = lookup(&fs, lib, &"Preferences".to_string()).unwrap();
    let file = lookup(&fs, prefs, &"x.plist".to_string()).unwrap();
    assert!(matches!(fs.backing[file].ftype, FileType::File));
    assert_eq!(fs.backing[file].id.0, [4u8; 20]);
    assert_eq!(lookup(&fs, prefs, &"nope".to_string()).unwrap_err(), Errno::Enoent);
}

#[test]
fn insert_errors_are_reported() {
    let mut fs = FS::new();
    assert_eq!(
        fs.insert_file("HomeDomain", "", "zz", FileType::Folder).unwrap_err(),
        InsertError::BadId
    );
    assert_eq!(
        fs.insert_file("HomeDomain", "Library/x", &id(9), FileType::File).unwrap_err(),
        InsertError::MissingParent
    );
    fs.insert_file("HomeDomain", "", &id(1), FileType::Folder).unwrap();
    assert_eq!(
        fs.insert_file("HomeDomain", "", &id(2), FileType::Folder).unwrap_err(),
        InsertError::Duplicate
    );
    fs.insert_file("HomeDomain", "a", &id(3), FileType::File).unwrap();
    // A file cannot be a parent.
    assert_eq!(
        fs.insert_file("HomeDomain", "a/b", &id(4), FileType::File).unwrap_err(),
        InsertError::MissingParent
    );
}

#[test]
fn empty_directories_are_pruned() {
    let mut fs = FS::new();
    fs.insert_file("Foo", "", &id(1), FileType::Folder).unwrap();
    fs.insert_file("Foo", "Bar", &id(2), FileType::Folder).unwrap();
    fs.insert_file("Foo", "Keep", &id(3), FileType::Folder).unwrap();
    fs.insert_file("Foo", "Keep/file", &id(4), FileType::File).unwrap();
    fs.remove_empty_directories();

    let foo = lookup(&fs, 1, &"Foo".to_string()).unwrap();
    assert_eq!(names_of(&fs, foo), vec!["Keep".to_string()]);
}

#[test]
fn pruning_cascades_bottom_up() {
    let mut fs = FS::new();
    fs.insert_file("D", "", &id(1), FileType::Folder).unwrap();
    fs.insert_file("D", "a", &id(2), FileType::Folder).unwrap();
    fs.insert_file("D", "a/b", &id(3), FileType::Folder).unwrap();
    fs.remove_empty_directories();
    // "a" lost its only child "b", so "a" goes too, and then "D".
    assert_eq!(lookup(&fs, 1, &"D".to_string()).unwrap_err(), Errno::Enoent);
    assert!(names_of(&fs, 1).is_empty());
}

#[test]
fn pruning_twice_changes_nothing() {
    let mut fs = FS::new();
    fs.insert_file("D", "", &id(1), FileType::Folder).unwrap();
    fs.insert_file("D", "a", &id(2), FileType::Folder).unwrap();
    fs.insert_file("D", "a/x", &id(3), FileType::File).unwrap();
    fs.insert_file("D", "empty", &id(4), FileType::Folder).unwrap();
    fs.remove_empty_directories();
    let once: Vec<(usize, Vec<String>)> = (0..fs.backing.len())
        .filter(|&i| matches!(fs.backing[i].ftype, FileType::Folder))
        .map(|i| (i, names_of(&fs, i)))
        .collect();
    fs.remove_empty_directories();
    let twice: Vec<(usize, Vec<String>)> = (0..fs.backing.len())
        .filter(|&i| matches!(fs.backing[i].ftype, FileType::Folder))
        .map(|i| (i, names_of(&fs, i)))
        .collect();
    assert_eq!(once, twice);
}

#[test]
fn sibling_order_does_not_change_the_tree() {
    let mut fs1 = FS::new();
    fs1.insert_file("D", "", &id(1), FileType::Folder).unwrap();
    fs1.insert_file("D", "a", &id(2), FileType::File).unwrap();
    fs1.insert_file("D", "b", &id(3), FileType::Folder).unwrap();
    fs1.insert_file("D", "b/c", &id(4), FileType::File).unwrap();

    let mut fs2 = FS::new();
    fs2.insert_file("D", "", &id(1), FileType::Folder).unwrap();
    fs2.insert_file("D", "b", &id(3), FileType::Folder).unwrap();
    fs2.insert_file("D", "a", &id(2), FileType::File).unwrap();
    fs2.insert_file("D", "b/c", &id(4), FileType::File).unwrap();

    // The same names resolve in both trees, to entries with the same
    // identifier and kind, whatever order the siblings arrived in.
    for (parent_path, name) in [(vec![], "D"), (vec!["D"], "a"), (vec!["D"], "b"), (vec!["D", "b"], "c")] {
        let mut p1 = 1usize;
        let mut p2 = 1usize;
        for seg in &parent_path {
            p1 = lookup(&fs1, p1, &seg.to_string()).unwrap();
            p2 = lookup(&fs2, p2, &seg.to_string()).unwrap();
        }
        let c1 = lookup(&fs1, p1, &name.to_string()).unwrap();
        let c2 = lookup(&fs2, p2, &name.to_string()).unwrap();
        assert_eq!(fs1.backing[c1].id.0, fs2.backing[c2].id.0);
        assert_eq!(fs1.backing[c1].ftype, fs2.backing[c2].ftype);
    }
    // And each folder lists the same set of names.
    let d1 = lookup(&fs1, 1, &"D".to_string()).unwrap();
    let d2 = lookup(&fs2, 1, &"D".to_string()).unwrap();
    let mut n1 = names_of(&fs1, d1);
    let mut n2 = names_of(&fs2, d2);
    n1.sort();
    n2.sort();
    assert_eq!(n1, n2);
}

#[test]
fn folder_attr_size_counts_readdir_entries() {
    let mut fs = FS::new();
    fs.insert_file("D", "", &id(1), FileType::Folder).unwrap();
    fs.insert_file("D", "a", &id(2), FileType::File).unwrap();
    fs.insert_file("D", "b", &id(3), FileType::File).unwrap();
    fs.insert_file("D", "c", &id(4), FileType::File).unwrap();
    let d = lookup(&fs, 1, &"D".to_string()).unwrap();
    let attr = file_attr(&fs, d, &None);
    let entries = readdir(&fs, d, 0).unwrap();
    assert_eq!(attr.size, entries.len() as u64);
    assert_eq!(attr.size, 3);
}

#[test]
fn readdir_resumes_at_offset() {
    let mut fs = FS::new();
    fs.insert_file("D", "", &id(1), FileType::Folder).unwrap();
    fs.insert_file("D", "a", &id(2), FileType::File).unwrap();
    fs.insert_file("D", "b", &id(3), FileType::File).unwrap();
    let d = lookup(&fs, 1, &"D".to_string()).unwrap();
    let all = readdir(&fs, d, 0).unwrap();
    assert_eq!(all.len(), 2);
    assert_eq!(all[0].3, "a");
    assert_eq!(all[0].1, 1);
    let rest = readdir(&fs, d, all[0].1).unwrap();
    assert_eq!(rest.len(), 1);
    assert_eq!(rest[0].3, "b");
    assert!(readdir(&fs, d, 2).unwrap().is_empty());
    assert!(readdir(&fs, d, 99).unwrap().is_empty());
}

#[test]
fn opendir_distinguishes_kinds() {
    let mut fs = FS::new();
    fs.insert_file("D", "", &id(1), FileType::Folder).unwrap();
    fs.insert_file("D", "f", &id(2), FileType::File).unwrap();
    let d = lookup(&fs, 1, &"D".to_string()).unwrap();
    let f = lookup(&fs, d, &"f".to_string()).unwrap();
    assert!(opendir(&fs, 1).is_ok());
    assert!(opendir(&fs, d).is_ok());
    assert_eq!(opendir(&fs, f).unwrap_err(), Errno::Enotdir);
    assert_eq!(opendir(&fs, 999).unwrap_err(), Errno::Enoent);
}

#[test]
fn file_attr_reports_record_fields() {
    let mut fs = FS::new();
    fs.insert_file("D", "", &id(1), FileType::Folder).unwrap();
    fs.insert_file("D", "f", &id(2), FileType::File).unwrap();
    let d = lookup(&fs, 1, &"D".to_string()).unwrap();
    let f = lookup(&fs, d, &"f".to_string()).unwrap();
    let m = backupfs::archive::MBFile {
        size: 1234,
        birth: 100,
        last_modified: 300,
        last_status_change: 200,
        flags: 7,
        user_id: 501,
        group_id: 502,
        inode_number: 0,
        mode: 0,
        protection_class: 0,
        relative_path: "f".to_string(),
        target: None,
        digest: None,
        encryption_key: None,
        extended_attributes: None,
    };
    let attr = file_attr(&fs, f, &Some(m));
    assert_eq!(attr.size, 1234);
    assert_eq!(attr.crtime, 100);
    assert_eq!(attr.ctime, 200);
    assert_eq!(attr.mtime, 300);
    assert_eq!(attr.atime, 300);
    assert_eq!(attr.uid, 501);
    assert_eq!(attr.gid, 502);
    assert_eq!(attr.flags, 7);
    assert_eq!(attr.perm, 0o777);
    assert_eq!(attr.blksize, 4096);
}
