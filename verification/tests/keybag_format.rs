//! The keybag TLV parser and serialiser.

use backupfs::keybag::{parse_keybag, serialize_keybag, KeyBag, KeyBagClass, KeyBagError, Tag};

fn sample_keybag() -> KeyBag {
    KeyBag {
        vers: 3,
        ktype: 1,
        uuid: [0x11; 16],
        hmck: vec![1, 2, 3, 4, 5],
        wrap: 1,
        salt: vec![9, 9, 9, 9],
        iter: 10000,
        dpwt: 0,
        dpic: 1000,
        dpsl: vec![7, 7, 7, 7, 7],
        others: vec![
            KeyBagClass { uuid: [0x22; 16], clas: 1, wrap: 3, ktyp: 0, wpky: vec![0xAA; 40] },
            KeyBagClass { uuid: [0x33; 16], clas: 2, wrap: 2, ktyp: 0, wpky: vec![0xBB; 40] },
        ],
    }
}

#[test]
fn serialised_keybag_parses_back() {
    let kb = sample_keybag();
    let bytes = serialize_keybag(&kb);
    let back = parse_keybag(&bytes).expect("round trip");
    assert_eq!(back.vers, kb.vers);
    assert_eq!(back.ktype, kb.ktype);
    assert_eq!(back.uuid, kb.uuid);
    assert_eq!(back.hmck, kb.hmck);
    assert_eq!(back.wrap, kb.wrap);
    assert_eq!(back.salt, kb.salt);
    assert_eq!(back.iter, kb.iter);
    assert_eq!(back.dpwt, kb.dpwt);
    assert_eq!(back.dpic, kb.dpic);
    assert_eq!(back.dpsl, kb.dpsl);
    assert_eq!(back.others.len(), 2);
    assert_eq!(back.others[0].uuid, kb.others[0].uuid);
    assert_eq!(back.others[0].clas, 1);
    assert_eq!(back.others[0].wrap, 3);
    assert_eq!(back.others[1].wpky, vec![0xBB; 40]);
}

#[test]
fn keybag_without_classes_parses_back() {
    let mut kb = sample_keybag();
    kb.others = Vec::new();
    let bytes = serialize_keybag(&kb);
    let back = parse_keybag(&bytes).expect("round trip");
    assert_eq!(back.iter, 10000);
    assert!(back.others.is_empty());
}

#[test]
fn known_byte_layout() {
    let mut kb = sample_keybag();
    kb.others = Vec::new();
    let bytes = serialize_keybag(&kb);
    // First record: "VERS", length 4, value 3.
    assert_eq!(&bytes[0..4], b"VERS");
    assert_eq!(&bytes[4..8], &[0, 0, 0, 4]);
    assert_eq!(&bytes[8..12], &[0, 0, 0, 3]);
    // Second record: "TYPE".
    assert_eq!(&bytes[12..16], b"TYPE");
}

#[test]
fn empty_input_is_truncated() {
    assert_eq!(parse_keybag(&[]).unwrap_err(), KeyBagError::Truncated);
}

#[test]
fn wrong_first_tag_reports_expected_vers() {
    let kb = sample_keybag();
    let mut bytes = serialize_keybag(&kb);
    bytes[0] = b'X';
    assert_eq!(parse_keybag(&bytes).unwrap_err(), KeyBagError::Expected(Tag::Vers));
}

#[test]
fn truncated_tail_is_error() {
    let kb = sample_keybag();
    let bytes = serialize_keybag(&kb);
    let cut = &bytes[..bytes.len() - 3];
    assert!(parse_keybag(cut).is_err());
}

#[test]
fn bad_uuid_length_reported() {
    // VERS, TYPE then a UUID record with a 3-byte payload.
    let mut bytes: Vec<u8> = Vec::new();
    bytes.extend_from_slice(b"VERS\x00\x00\x00\x04\x00\x00\x00\x03");
    bytes.extend_from_slice(b"TYPE\x00\x00\x00\x04\x00\x00\x00\x01");
    bytes.extend_from_slice(b"UUID\x00\x00\x00\x03abc");
    assert_eq!(parse_keybag(&bytes).unwrap_err(), KeyBagError::BadLength(Tag::Uuid));
}

#[test]
fn integer_field_with_wrong_size_reported() {
    let mut bytes: Vec<u8> = Vec::new();
    bytes.extend_from_slice(b"VERS\x00\x00\x00\x02\x00\x03");
    assert_eq!(parse_keybag(&bytes).unwrap_err(), KeyBagError::BadLength(Tag::Vers));
}
