//! Passphrase verification, key wrapping and the manifest key.

use backupfs::keybag::{KeyBag, KeyBagClass};
use backupfs::kw::{
    derive_kek, unwrap_key, unwrap_manifest_key, verify_passphrase, wrap_key, ManifestKeyError,
    UnlockError,
};

fn bare_bag() -> KeyBag {
    KeyBag {
        vers: 3,
        ktype: 0,
        uuid: [0; 16],
        hmck: vec![],
        wrap: 1,
        salt: vec![1, 2, 3, 4],
        iter: 2,
        dpwt: 0,
        dpic: 3,
        dpsl: vec![5, 6, 7, 8],
        others: vec![],
    }
}

#[test]
fn wrap_then_unwrap_is_identity() {
    let kek = [0x42u8; 32];
    let key = [0x99u8; 32];
    let wrapped = wrap_key(&kek, &key);
    assert_eq!(wrapped.len(), 40);
    let back = unwrap_key(&kek, &wrapped).expect("integrity holds");
    assert_eq!(back, key);
}

#[test]
fn unwrap_under_wrong_kek_fails() {
    let kek = [0x42u8; 32];
    let key = [0x99u8; 32];
    let wrapped = wrap_key(&kek, &key);
    let other = [0x43u8; 32];
    assert!(unwrap_key(&other, &wrapped).is_none());
}

#[test]
fn unwrap_of_wrong_length_fails() {
    let kek = [0x42u8; 32];
    assert!(unwrap_key(&kek, &[0u8; 39]).is_none());
    assert!(unwrap_key(&kek, &[0u8; 41]).is_none());
}

#[test]
fn derive_kek_is_deterministic_and_password_sensitive() {
    let bag = bare_bag();
    let a = derive_kek(&bag, b"1234");
    let b = derive_kek(&bag, b"1234");
    let c = derive_kek(&bag, b"bad");
    assert_eq!(a, b);
    assert_ne!(a, c);
}

#[test]
fn correct_passphrase_unwraps_class_keys() {
    let mut bag = bare_bag();
    let kek = derive_kek(&bag, b"1234");
    let class_key = [0x07u8; 32];
    bag.others = vec![
        KeyBagClass { uuid: [1; 16], clas: 2, wrap: 2, ktyp: 0, wpky: wrap_key(&kek, &class_key).to_vec() },
        // An entry without the protection bit is skipped untouched.
        KeyBagClass { uuid: [2; 16], clas: 5, wrap: 1, ktyp: 0, wpky: vec![0; 4] },
    ];
    let keys = verify_passphrase(&bag, b"1234").expect("unlock");
    assert_eq!(keys.lookup(2), Some(class_key));
    assert_eq!(keys.lookup(5), None);
    assert_eq!(keys.lookup(9), None);
}

#[test]
fn wrong_passphrase_is_rejected() {
    let mut bag = bare_bag();
    let kek = derive_kek(&bag, b"1234");
    let class_key = [0x07u8; 32];
    bag.others = vec![KeyBagClass {
        uuid: [1; 16],
        clas: 2,
        wrap: 2,
        ktyp: 0,
        wpky: wrap_key(&kek, &class_key).to_vec(),
    }];
    assert_eq!(verify_passphrase(&bag, b"bad").unwrap_err(), UnlockError::IncorrectPassphrase);
}

#[test]
fn protected_entry_with_short_key_is_fatal() {
    let mut bag = bare_bag();
    bag.others = vec![KeyBagClass { uuid: [1; 16], clas: 2, wrap: 2, ktyp: 0, wpky: vec![0; 8] }];
    assert_eq!(
        verify_passphrase(&bag, b"1234").unwrap_err(),
        UnlockError::BadWrappedKeyLength
    );
}

#[test]
fn manifest_key_unwraps_with_class_key() {
    let mut bag = bare_bag();
    let kek = derive_kek(&bag, b"1234");
    let class_key = [0x07u8; 32];
    bag.others = vec![KeyBagClass {
        uuid: [1; 16],
        clas: 2,
        wrap: 2,
        ktyp: 0,
        wpky: wrap_key(&kek, &class_key).to_vec(),
    }];
    let keys = verify_passphrase(&bag, b"1234").unwrap();

    let db_key = [0x2Au8; 32];
    let mut mk: Vec<u8> = 2u32.to_le_bytes().to_vec();
    mk.extend_from_slice(&wrap_key(&class_key, &db_key));
    assert_eq!(unwrap_manifest_key(&keys, &mk).unwrap(), db_key);

    let mut unknown: Vec<u8> = 9u32.to_le_bytes().to_vec();
    unknown.extend_from_slice(&wrap_key(&class_key, &db_key));
    assert_eq!(
        unwrap_manifest_key(&keys, &unknown).unwrap_err(),
        ManifestKeyError::UnknownClass
    );

    assert_eq!(
        unwrap_manifest_key(&keys, &mk[..40]).unwrap_err(),
        ManifestKeyError::BadLength
    );

    let mut bad = mk.clone();
    bad[10] ^= 1;
    assert_eq!(
        unwrap_manifest_key(&keys, &bad).unwrap_err(),
        ManifestKeyError::IntegrityCheckFailed
    );
}
