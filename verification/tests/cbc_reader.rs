//! The random-access CBC reader against a reference encryption.

use aes::cipher::{BlockCipherEncrypt, KeyInit};
use backupfs::enc_reader::{has_correct_pkcs5_padding, read_encrypted, CbcCache};

fn encrypt_cbc(key: &[u8; 32], data: &[u8]) -> Vec<u8> {
    assert!(data.len() % 16 == 0);
    let cipher = aes::Aes256::new_from_slice(key).unwrap();
    let mut prev = [0u8; 16];
    let mut out = Vec::new();
    for chunk in data.chunks(16) {
        let mut b = [0u8; 16];
        b.copy_from_slice(chunk);
        for i in 0..16 {
            b[i] ^= prev[i];
        }
        let mut arr = aes::cipher::Array::from(b);
        cipher.encrypt_block(&mut arr);
        let eb: [u8; 16] = arr.into();
        out.extend_from_slice(&eb);
        prev = eb;
    }
    out
}

fn fixture_plaintext() -> Vec<u8> {
    // Three blocks; the last carries PKCS#5 padding of ten 0x0a bytes.
    let mut pt: Vec<u8> = Vec::new();
    for i in 0..32u8 {
        pt.push(i.wrapping_mul(7).wrapping_add(3));
    }
    pt.extend_from_slice(b"hello\n");
    pt.extend_from_slice(&[10u8; 10]);
    pt
}

fn key() -> [u8; 32] {
    let mut k = [0u8; 32];
    for i in 0..32 {
        k[i] = (i as u8).wrapping_mul(31).wrapping_add(1);
    }
    k
}

#[test]
fn whole_file_read_decrypts() {
    let pt = fixture_plaintext();
    let ct = encrypt_cbc(&key(), &pt);
    let mut cache = CbcCache::new(key(), &[0u8; 16], 0);
    let out = read_encrypted(&ct, &mut cache, 0, ct.len());
    assert_eq!(out, pt);
}

#[test]
fn unaligned_slice_equals_slice_of_whole() {
    let pt = fixture_plaintext();
    let ct = encrypt_cbc(&key(), &pt);
    for (offset, len) in [(0usize, 5usize), (3, 7), (15, 2), (16, 16), (17, 30), (40, 8), (47, 1)] {
        let mut cache = CbcCache::new(key(), &[0u8; 16], 0);
        let out = read_encrypted(&ct, &mut cache, offset, len);
        assert_eq!(out.as_slice(), &pt[offset..offset + len]);
    }
}

#[test]
fn monotonic_chunked_reads_concatenate_to_whole() {
    let pt = fixture_plaintext();
    let ct = encrypt_cbc(&key(), &pt);
    let mut cache = CbcCache::new(key(), &[0u8; 16], 0);
    let mut got: Vec<u8> = Vec::new();
    let mut pos = 0usize;
    for chunk in [6usize, 10, 16, 7, 9] {
        got.extend_from_slice(&read_encrypted(&ct, &mut cache, pos, chunk));
        pos += chunk;
    }
    assert_eq!(got, pt);
}

#[test]
fn backward_read_reseeds_correctly() {
    let pt = fixture_plaintext();
    let ct = encrypt_cbc(&key(), &pt);
    let mut cache = CbcCache::new(key(), &[0u8; 16], 0);
    let tail = read_encrypted(&ct, &mut cache, 32, 16);
    assert_eq!(tail.as_slice(), &pt[32..48]);
    // A jump back must re-seed from the prior block's ciphertext.
    let head = read_encrypted(&ct, &mut cache, 16, 16);
    assert_eq!(head.as_slice(), &pt[16..32]);
}

#[test]
fn zero_length_read_is_empty() {
    let pt = fixture_plaintext();
    let ct = encrypt_cbc(&key(), &pt);
    let mut cache = CbcCache::new(key(), &[0u8; 16], 0);
    let out = read_encrypted(&ct, &mut cache, 5, 0);
    assert!(out.is_empty());
}

#[test]
fn good_padding_accepted() {
    let pt = fixture_plaintext();
    let ct = encrypt_cbc(&key(), &pt);
    let mut cache = CbcCache::new(key(), &[0u8; 16], 0);
    assert!(has_correct_pkcs5_padding(&ct, &mut cache, ct.len() - 16));
}

#[test]
fn corrupt_last_block_rejected() {
    let pt = fixture_plaintext();
    let mut ct = encrypt_cbc(&key(), &pt);
    let last = ct.len() - 1;
    ct[last] ^= 0x40;
    let mut cache = CbcCache::new(key(), &[0u8; 16], 0);
    assert!(!has_correct_pkcs5_padding(&ct, &mut cache, ct.len() - 16));
}

#[test]
fn full_padding_block_accepted() {
    // A final block that is nothing but padding (value 16).
    let mut pt: Vec<u8> = b"0123456789abcdef".to_vec();
    pt.extend_from_slice(&[16u8; 16]);
    let ct = encrypt_cbc(&key(), &pt);
    let mut cache = CbcCache::new(key(), &[0u8; 16], 0);
    assert!(has_correct_pkcs5_padding(&ct, &mut cache, ct.len() - 16));
}

#[test]
fn zero_padding_byte_rejected() {
    let mut pt: Vec<u8> = b"0123456789abcde".to_vec();
    pt.push(0u8);
    let ct = encrypt_cbc(&key(), &pt);
    let mut cache = CbcCache::new(key(), &[0u8; 16], 0);
    assert!(!has_correct_pkcs5_padding(&ct, &mut cache, ct.len() - 16));
}
