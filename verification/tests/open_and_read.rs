//! Opening content files and serving clamped reads.

use aes::cipher::{BlockCipherEncrypt, KeyInit};
use backupfs::adapter::{Errno, OpenError, OpenFile, XattrReply};
use backupfs::archive::{MBFile, XattrPayload, XattrValue};
use backupfs::keybag::{KeyBag, KeyBagClass};
use backupfs::kw::{derive_kek, verify_passphrase, wrap_key, ClassKeys};
use sha1::Digest;

fn encrypt_cbc_zero_iv(key: &[u8; 32], data: &[u8]) -> Vec<u8> {
    assert!(data.len() % 16 == 0);
    let cipher = aes::Aes256::new_from_slice(key).unwrap();
    let mut prev = [0u8; 16];
    let mut out = Vec::new();
    for chunk in data.chunks(16) {
        let mut b = [0u8; 16];
        b.copy_from_slice(chunk);
        for i in 0..16 {
            b[i] ^= prev[i];
        }
        let mut arr = aes::cipher::Array::from(b);
        cipher.encrypt_block(&mut arr);
        let eb: [u8; 16] = arr.into();
        out.extend_from_slice(&eb);
        prev = eb;
    }
    out
}

const CONTENT_KEY: [u8; 32] = [0x5Au8; 32];
const CLASS_KEY: [u8; 32] = [0x07u8; 32];

fn class_keys() -> ClassKeys {
    let mut bag = KeyBag {
        vers: 3,
        ktype: 0,
        uuid: [0; 16],
        hmck: vec![],
        wrap: 1,
        salt: vec![1, 2, 3, 4],
        iter: 2,
        dpwt: 0,
        dpic: 3,
        dpsl: vec![5, 6, 7, 8],
        others: vec![],
    };
    let kek = derive_kek(&bag, b"1234");
    bag.others = vec![KeyBagClass {
        uuid: [1; 16],
        clas: 2,
        wrap: 2,
        ktyp: 0,
        wpky: wrap_key(&kek, &CLASS_KEY).to_vec(),
    }];
    verify_passphrase(&bag, b"1234").unwrap()
}

fn encryption_key_blob() -> Vec<u8> {
    let mut ek: Vec<u8> = 2u32.to_le_bytes().to_vec();
    ek.extend_from_slice(&wrap_key(&CLASS_KEY, &CONTENT_KEY));
    ek
}

fn mbfile(size: u64, digest: Option<Vec<u8>>) -> MBFile {
    MBFile {
        size,
        birth: 0,
        last_modified: 0,
        last_status_change: 0,
        flags: 0,
        user_id: 0,
        group_id: 0,
        inode_number: 0,
        mode: 0,
        protection_class: 0,
        relative_path: "Library/Preferences/x.plist".to_string(),
        target: None,
        digest,
        encryption_key: Some(encryption_key_blob()),
        extended_attributes: None,
    }
}

fn hello_ciphertext() -> Vec<u8> {
    let mut pt: Vec<u8> = b"hello\n".to_vec();
    pt.extend_from_slice(&[10u8; 10]);
    encrypt_cbc_zero_iv(&CONTENT_KEY, &pt)
}

#[test]
fn open_and_read_whole_file() {
    let ct = hello_ciphertext();
    let digest = sha1::Sha1::digest(&ct).to_vec();
    let keys = class_keys();
    let mut f = OpenFile::open(ct, &mbfile(6, Some(digest)), &keys, true).unwrap();
    assert_eq!(f.read(0, 4096).unwrap(), b"hello\n");
}

#[test]
fn read_clamps_and_zero_fills() {
    // Two data blocks plus a full padding block; the record claims 16
    // more bytes than the ciphertext holds, so the ciphertext's final
    // block is dropped from the decryptable part and the tail reads
    // as zeros.
    let mut pt: Vec<u8> = Vec::new();
    for i in 0..32u8 {
        pt.push(i + 1);
    }
    pt.extend_from_slice(&[16u8; 16]);
    let ct = encrypt_cbc_zero_iv(&CONTENT_KEY, &pt);
    assert_eq!(ct.len(), 48);
    let keys = class_keys();
    let logical = (ct.len() + 16) as u64;
    let mut f = OpenFile::open(ct, &mbfile(logical, None), &keys, true).unwrap();
    let buf = f.read(0, 4096).unwrap();
    assert_eq!(buf.len(), 64);
    assert_eq!(&buf[..32], &pt[..32]);
    assert!(buf[32..].iter().all(|&b| b == 0));
}

#[test]
fn read_at_and_past_logical_end() {
    let ct = hello_ciphertext();
    let keys = class_keys();
    let mut f = OpenFile::open(ct, &mbfile(6, None), &keys, true).unwrap();
    assert!(f.read(6, 100).unwrap().is_empty());
    assert_eq!(f.read(7, 100).unwrap_err(), Errno::Enoent);
    assert_eq!(f.read(3, 2).unwrap(), b"lo");
}

#[test]
fn corrupt_padding_fails_open() {
    let mut ct = hello_ciphertext();
    let last = ct.len() - 1;
    ct[last] ^= 1;
    let keys = class_keys();
    assert_eq!(
        OpenFile::open(ct, &mbfile(6, None), &keys, true).unwrap_err(),
        OpenError::BadPadding
    );
}

#[test]
fn digest_mismatch_fails_open() {
    let ct = hello_ciphertext();
    let keys = class_keys();
    let wrong = vec![0u8; 20];
    assert_eq!(
        OpenFile::open(ct.clone(), &mbfile(6, Some(wrong.clone())), &keys, true).unwrap_err(),
        OpenError::DigestMismatch
    );
    // With digest verification off the same record opens.
    assert!(OpenFile::open(ct, &mbfile(6, Some(wrong)), &keys, false).is_ok());
}

#[test]
fn bad_ciphertext_size_fails_open() {
    let keys = class_keys();
    assert_eq!(
        OpenFile::open(vec![0u8; 15], &mbfile(6, None), &keys, true).unwrap_err(),
        OpenError::BadSize
    );
    assert_eq!(
        OpenFile::open(Vec::new(), &mbfile(0, None), &keys, true).unwrap_err(),
        OpenError::BadSize
    );
}

#[test]
fn missing_or_unknown_key_fails_open() {
    let ct = hello_ciphertext();
    let keys = class_keys();
    let mut m = mbfile(6, None);
    m.encryption_key = None;
    assert_eq!(
        OpenFile::open(ct.clone(), &m, &keys, true).unwrap_err(),
        OpenError::MissingKey
    );
    let mut ek: Vec<u8> = 9u32.to_le_bytes().to_vec();
    ek.extend_from_slice(&wrap_key(&CLASS_KEY, &CONTENT_KEY));
    m.encryption_key = Some(ek);
    assert_eq!(
        OpenFile::open(ct.clone(), &m, &keys, true).unwrap_err(),
        OpenError::UnknownClass
    );
    m.encryption_key = Some(vec![1, 2, 3]);
    assert_eq!(
        OpenFile::open(ct, &m, &keys, true).unwrap_err(),
        OpenError::BadKeyLength
    );
}

#[test]
fn getxattr_probe_fetch_and_missing() {
    let mut m = mbfile(6, None);
    m.extended_attributes = Some(XattrPayload::Dict(vec![
        ("com.apple.quarantine".to_string(), XattrValue::Data(vec![1, 2, 3, 4])),
        ("weird".to_string(), XattrValue::Other),
    ]));
    match m.getxattr(&"com.apple.quarantine".to_string(), 0).unwrap() {
        XattrReply::Size(n) => assert_eq!(n, 4),
        _ => panic!("expected a size"),
    }
    match m.getxattr(&"com.apple.quarantine".to_string(), 4).unwrap() {
        XattrReply::Data(d) => assert_eq!(d, vec![1, 2, 3, 4]),
        _ => panic!("expected data"),
    }
    assert_eq!(
        m.getxattr(&"com.apple.quarantine".to_string(), 3).unwrap_err(),
        Errno::Erange
    );
    assert_eq!(m.getxattr(&"absent".to_string(), 0).unwrap_err(), Errno::Enodata);
    assert_eq!(m.getxattr(&"weird".to_string(), 0).unwrap_err(), Errno::Eio);
    let mut none = mbfile(6, None);
    none.extended_attributes = None;
    assert_eq!(none.getxattr(&"x".to_string(), 0).unwrap_err(), Errno::Enodata);
    let mut nd = mbfile(6, None);
    nd.extended_attributes = Some(XattrPayload::NotDict);
    assert_eq!(nd.getxattr(&"x".to_string(), 0).unwrap_err(), Errno::Eio);
}

#[test]
fn listxattr_concatenates_names() {
    let mut m = mbfile(6, None);
    m.extended_attributes = Some(XattrPayload::Dict(vec![
        ("ab".to_string(), XattrValue::Data(vec![1])),
        ("cd".to_string(), XattrValue::Other),
    ]));
    match m.listxattr(0).unwrap() {
        XattrReply::Size(n) => assert_eq!(n, 6),
        _ => panic!("expected a size"),
    }
    match m.listxattr(64).unwrap() {
        XattrReply::Data(d) => assert_eq!(d, b"ab\0cd\0"),
        _ => panic!("expected data"),
    }
    assert_eq!(m.listxattr(5).unwrap_err(), Errno::Erange);
    let mut none = mbfile(6, None);
    none.extended_attributes = None;
    match none.listxattr(0).unwrap() {
        XattrReply::Size(n) => assert_eq!(n, 0),
        _ => panic!("expected a size"),
    }
}
