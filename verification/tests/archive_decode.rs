//! The keyed-archive decoder on real plists.

use backupfs::archive::{decode_mbfile, DecodeError, XattrPayload, XattrValue};
use plist::{Dictionary, Uid, Value};

fn class_dict(name: &str, classes: &[&str]) -> Value {
    let mut d = Dictionary::new();
    d.insert("$classname".to_string(), Value::String(name.to_string()));
    d.insert(
        "$classes".to_string(),
        Value::Array(classes.iter().map(|c| Value::String(c.to_string())).collect()),
    );
    Value::Dictionary(d)
}

fn base_record() -> Dictionary {
    let mut mb = Dictionary::new();
    mb.insert("LastModified".to_string(), Value::from(300u64));
    mb.insert("Flags".to_string(), Value::from(1u64));
    mb.insert("GroupID".to_string(), Value::from(501i64));
    mb.insert("LastStatusChange".to_string(), Value::from(200u64));
    mb.insert("RelativePath".to_string(), Value::Uid(Uid::new(3)));
    mb.insert("Birth".to_string(), Value::from(100u64));
    mb.insert("Size".to_string(), Value::from(6u64));
    mb.insert("InodeNumber".to_string(), Value::from(77u64));
    mb.insert("Mode".to_string(), Value::from(420u64));
    mb.insert("UserID".to_string(), Value::from(502i64));
    mb.insert("ProtectionClass".to_string(), Value::from(4u64));
    mb.insert("$class".to_string(), Value::Uid(Uid::new(2)));
    mb
}

/// objects[0] is a placeholder, [1] the record, [2] its class,
/// [3] the path string; more objects may follow.
fn archive_bytes(record: Dictionary, extra_objects: Vec<Value>) -> Vec<u8> {
    let mut objects = vec![
        Value::String("$null".to_string()),
        Value::Dictionary(record),
        class_dict("MBFile", &["MBFile", "NSObject"]),
        Value::String("Library/Preferences/x.plist".to_string()),
    ];
    objects.extend(extra_objects);
    let mut top = Dictionary::new();
    top.insert("root".to_string(), Value::Uid(Uid::new(1)));
    let mut archive = Dictionary::new();
    archive.insert("$version".to_string(), Value::from(100000u64));
    archive.insert("$archiver".to_string(), Value::String("NSKeyedArchiver".to_string()));
    archive.insert("$top".to_string(), Value::Dictionary(top));
    archive.insert("$objects".to_string(), Value::Array(objects));
    let mut buf: Vec<u8> = Vec::new();
    Value::Dictionary(archive).to_writer_binary(&mut buf).unwrap();
    buf
}

#[test]
fn minimal_record_decodes() {
    let m = decode_mbfile(&archive_bytes(base_record(), vec![])).unwrap();
    assert_eq!(m.size, 6);
    assert_eq!(m.birth, 100);
    assert_eq!(m.last_status_change, 200);
    assert_eq!(m.last_modified, 300);
    assert_eq!(m.flags, 1);
    assert_eq!(m.group_id, 501);
    assert_eq!(m.user_id, 502);
    assert_eq!(m.inode_number, 77);
    assert_eq!(m.mode, 420);
    assert_eq!(m.protection_class, 4);
    assert_eq!(m.relative_path, "Library/Preferences/x.plist");
    assert!(m.target.is_none());
    assert!(m.digest.is_none());
    assert!(m.encryption_key.is_none());
    assert!(m.extended_attributes.is_none());
}

#[test]
fn optional_fields_decode() {
    let mut rec = base_record();
    rec.insert("Target".to_string(), Value::Uid(Uid::new(4)));
    rec.insert("Digest".to_string(), Value::Uid(Uid::new(5)));
    rec.insert("EncryptionKey".to_string(), Value::Uid(Uid::new(6)));

    let mut nsdata = Dictionary::new();
    nsdata.insert("NS.data".to_string(), Value::Data(vec![9, 9, 9, 9]));
    nsdata.insert("$class".to_string(), Value::Uid(Uid::new(7)));

    let extra = vec![
        Value::String("link/target".to_string()),
        Value::Data(vec![0xAA; 20]),
        Value::Dictionary(nsdata),
        class_dict("NSMutableData", &["NSMutableData", "NSData", "NSObject"]),
    ];
    let m = decode_mbfile(&archive_bytes(rec, extra)).unwrap();
    assert_eq!(m.target.as_deref(), Some("link/target"));
    assert_eq!(m.digest, Some(vec![0xAA; 20]));
    assert_eq!(m.encryption_key, Some(vec![9, 9, 9, 9]));
}

#[test]
fn inline_strings_are_accepted() {
    let mut rec = base_record();
    rec.insert(
        "RelativePath".to_string(),
        Value::String("inline/path".to_string()),
    );
    let m = decode_mbfile(&archive_bytes(rec, vec![])).unwrap();
    assert_eq!(m.relative_path, "inline/path");
}

#[test]
fn nested_xattr_plist_decodes() {
    let mut xd = Dictionary::new();
    xd.insert("com.apple.quarantine".to_string(), Value::Data(vec![1, 2, 3, 4]));
    xd.insert("other".to_string(), Value::String("not data".to_string()));
    let mut nested: Vec<u8> = Vec::new();
    Value::Dictionary(xd).to_writer_binary(&mut nested).unwrap();

    let mut rec = base_record();
    rec.insert("ExtendedAttributes".to_string(), Value::Data(nested));
    let m = decode_mbfile(&archive_bytes(rec, vec![])).unwrap();
    match m.extended_attributes.unwrap() {
        XattrPayload::Dict(es) => {
            assert_eq!(es.len(), 2);
            assert_eq!(es[0].0, "com.apple.quarantine");
            assert!(matches!(&es[0].1, XattrValue::Data(d) if d == &vec![1, 2, 3, 4]));
            assert!(matches!(es[1].1, XattrValue::Other));
        },
        XattrPayload::NotDict => panic!("expected a dictionary"),
    }
}

#[test]
fn garbage_is_not_a_plist() {
    assert_eq!(decode_mbfile(b"not a plist at all").unwrap_err(), DecodeError::NotAPlist);
}

#[test]
fn wrong_version_is_malformed() {
    let mut objects = vec![Value::String("$null".to_string()), Value::Dictionary(base_record())];
    objects.push(class_dict("MBFile", &["MBFile", "NSObject"]));
    objects.push(Value::String("p".to_string()));
    let mut top = Dictionary::new();
    top.insert("root".to_string(), Value::Uid(Uid::new(1)));
    let mut archive = Dictionary::new();
    archive.insert("$version".to_string(), Value::from(99999u64));
    archive.insert("$archiver".to_string(), Value::String("NSKeyedArchiver".to_string()));
    archive.insert("$top".to_string(), Value::Dictionary(top));
    archive.insert("$objects".to_string(), Value::Array(objects));
    let mut buf: Vec<u8> = Vec::new();
    Value::Dictionary(archive).to_writer_binary(&mut buf).unwrap();
    assert_eq!(decode_mbfile(&buf).unwrap_err(), DecodeError::Malformed);
}

#[test]
fn wrong_class_is_malformed() {
    let mut objects = vec![
        Value::String("$null".to_string()),
        Value::Dictionary(base_record()),
        class_dict("MBFile", &["MBFile", "MBBase", "NSObject"]),
        Value::String("p".to_string()),
    ];
    let mut top = Dictionary::new();
    top.insert("root".to_string(), Value::Uid(Uid::new(1)));
    let mut archive = Dictionary::new();
    archive.insert("$version".to_string(), Value::from(100000u64));
    archive.insert("$archiver".to_string(), Value::String("NSKeyedArchiver".to_string()));
    archive.insert("$top".to_string(), Value::Dictionary(top));
    archive.insert("$objects".to_string(), Value::Array(std::mem::take(&mut objects)));
    let mut buf: Vec<u8> = Vec::new();
    Value::Dictionary(archive).to_writer_binary(&mut buf).unwrap();
    assert_eq!(decode_mbfile(&buf).unwrap_err(), DecodeError::Malformed);
}

#[test]
fn missing_required_field_is_malformed() {
    let mut rec = base_record();
    rec.remove("Size");
    assert_eq!(decode_mbfile(&archive_bytes(rec, vec![])).unwrap_err(), DecodeError::Malformed);
}

#[test]
fn unknown_field_is_malformed() {
    let mut rec = base_record();
    rec.insert("Surprise".to_string(), Value::from(1u64));
    assert_eq!(decode_mbfile(&archive_bytes(rec, vec![])).unwrap_err(), DecodeError::Malformed);
}

#[test]
fn dangling_root_reference_is_malformed() {
    let mut top = Dictionary::new();
    top.insert("root".to_string(), Value::Uid(Uid::new(40)));
    let mut archive = Dictionary::new();
    archive.insert("$version".to_string(), Value::from(100000u64));
    archive.insert("$archiver".to_string(), Value::String("NSKeyedArchiver".to_string()));
    archive.insert("$top".to_string(), Value::Dictionary(top));
    archive.insert("$objects".to_string(), Value::Array(vec![Value::String("$null".to_string())]));
    let mut buf: Vec<u8> = Vec::new();
    Value::Dictionary(archive).to_writer_binary(&mut buf).unwrap();
    assert_eq!(decode_mbfile(&buf).unwrap_err(), DecodeError::Malformed);
}
