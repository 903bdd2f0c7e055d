//! Random-access reading of an AES-256-CBC-encrypted byte source.
//!
//! The ciphertext is decrypted block by block; decrypting the block at a
//! byte offset `o` needs only the key, the ciphertext block at `o`, and
//! the previous ciphertext block (or the zero IV at the start of the
//! source).  `CbcCache` keeps that previous block together with the
//! offset it belongs to, so a run of forward reads never re-reads or
//! re-decrypts the prefix.

use vstd::prelude::*;
use vstd::slice::{slice_subrange, slice_to_vec};
use aes::cipher::{BlockCipherDecrypt, KeyInit};

verus! {

/// What AES-256 block decryption returns for a key and a single
/// 16-byte block; a function of the two arguments alone.
pub uninterp spec fn aes256_dec_block(key: Seq<u8>, block: Seq<u8>) -> Seq<u8>;

/// Byte-wise xor of the first 16 elements of two sequences.
pub open spec fn xor16(a: Seq<u8>, b: Seq<u8>) -> Seq<u8> {
    Seq::new(16, |i: int| a[i] ^ b[i])
}

/// The 16-byte zero IV.
pub open spec fn zero16() -> Seq<u8> {
    Seq::new(16, |i: int| 0u8)
}

/// CBC decryption of whole blocks: each plaintext block is the AES
/// decryption of its ciphertext block xor-ed with the previous
/// ciphertext block, the first with `iv`.  Trailing bytes short of a
/// block are ignored.
pub open spec fn cbc_dec(key: Seq<u8>, iv: Seq<u8>, ct: Seq<u8>) -> Seq<u8>
    decreases ct.len(),
{
    if ct.len() < 16 {
        Seq::empty()
    } else {
        xor16(aes256_dec_block(key, ct.take(16)), iv) + cbc_dec(key, ct.take(16), ct.skip(16))
    }
}

/// The full plaintext of a ciphertext source: CBC decryption from
/// offset zero with the zero IV.
pub open spec fn plain_of(key: Seq<u8>, ct: Seq<u8>) -> Seq<u8> {
    cbc_dec(key, zero16(), ct)
}

/// The IV with which the block at byte offset `o` of `ct` is chained:
/// the zero IV at the start, the previous ciphertext block elsewhere.
pub open spec fn iv_at(ct: Seq<u8>, o: int) -> Seq<u8> {
    if o == 0 { zero16() } else { ct.subrange(o - 16, o) }
}

pub proof fn lemma_cbc_dec_len(key: Seq<u8>, iv: Seq<u8>, ct: Seq<u8>)
    requires
        ct.len() % 16 == 0,
    ensures
        cbc_dec(key, iv, ct).len() == ct.len(),
    decreases ct.len(),
{
    if ct.len() >= 16 {
        lemma_cbc_dec_len(key, ct.take(16), ct.skip(16));
    }
}

/// CBC decryption is position-independent: the plaintext block at
/// offset `16 * i` depends only on the key, the ciphertext block there,
/// and the ciphertext block before it (or `iv` for the first block).
pub proof fn lemma_cbc_dec_block(key: Seq<u8>, iv: Seq<u8>, ct: Seq<u8>, i: int)
    requires
        ct.len() % 16 == 0,
        0 <= i,
        16 * i + 16 <= ct.len(),
    ensures
        cbc_dec(key, iv, ct).subrange(16 * i, 16 * i + 16) == xor16(
            aes256_dec_block(key, ct.subrange(16 * i, 16 * i + 16)),
            if i == 0 { iv } else { ct.subrange(16 * i - 16, 16 * i) },
        ),
    decreases i,
{
    lemma_cbc_dec_len(key, iv, ct);
    let first = xor16(aes256_dec_block(key, ct.take(16)), iv);
    let rest = cbc_dec(key, ct.take(16), ct.skip(16));
    assert(cbc_dec(key, iv, ct) == first + rest);
    if i == 0 {
        assert(ct.take(16) =~= ct.subrange(0, 16));
        assert((first + rest).subrange(0, 16) =~= first);
    } else {
        lemma_cbc_dec_len(key, ct.take(16), ct.skip(16));
        lemma_cbc_dec_block(key, ct.take(16), ct.skip(16), i - 1);
        assert((first + rest).subrange(16 * i, 16 * i + 16) =~= rest.subrange(
            16 * (i - 1),
            16 * (i - 1) + 16,
        ));
        assert(ct.skip(16).subrange(16 * (i - 1), 16 * (i - 1) + 16) =~= ct.subrange(
            16 * i,
            16 * i + 16,
        ));
        if i == 1 {
            assert(ct.take(16) =~= ct.subrange(16 * i - 16, 16 * i));
        } else {
            assert(ct.skip(16).subrange(16 * (i - 1) - 16, 16 * (i - 1)) =~= ct.subrange(
                16 * i - 16,
                16 * i,
            ));
        }
    }
}

/// Relies on `aes::Aes256` (`KeyInit::new` and
/// `BlockCipherDecrypt::decrypt_block`): raw AES-256 decryption of one
/// 16-byte block under a 32-byte key.
#[verifier::external_body]
fn aes256_decrypt_block(key: &[u8; 32], block: &[u8; 16]) -> (r: [u8; 16])
    ensures
        r@ == aes256_dec_block(key@, block@),
{
    let cipher = aes::Aes256::new_from_slice(&key[..]).unwrap();
    let mut b = aes::cipher::Array::from(*block);
    cipher.decrypt_block(&mut b);
    b.into()
}

/// The reusable decryption state for one ciphertext source: the key,
/// and the chaining IV for the ciphertext block at `offset`.
#[derive(Debug)]
pub struct CbcCache {
    key: [u8; 32],
    iv: [u8; 16],
    offset: usize,
}

impl CbcCache {
    /// The AES-256 key.
    pub closed spec fn key_view(&self) -> Seq<u8> {
        self.key@
    }

    /// The chaining IV held for the block at `offset_view`.
    pub closed spec fn iv_view(&self) -> Seq<u8> {
        self.iv@
    }

    /// The ciphertext byte offset the state is positioned at; the next
    /// read starting here continues without re-seeding.
    pub closed spec fn offset_view(&self) -> int {
        self.offset as int
    }

    /// Whether the state is positioned consistently with ciphertext
    /// `ct`: at a block boundary inside it, holding the IV that chains
    /// the block there.
    pub open spec fn wf_for(&self, ct: Seq<u8>) -> bool {
        &&& self.offset_view() % 16 == 0
        &&& 0 <= self.offset_view() <= ct.len()
        &&& self.offset_view() > 0 ==> self.iv_view() == iv_at(ct, self.offset_view())
        &&& self.offset_view() == 0 ==> self.iv_view() == zero16()
    }

    /// A fresh state for the given key, positioned at `offset` with the
    /// given IV.
    pub fn new(key: [u8; 32], iv: &[u8; 16], offset: usize) -> (r: CbcCache)
        ensures
            r.key_view() == key@,
            r.iv_view() == iv@,
            r.offset_view() == offset as int,
    {
        CbcCache { key, iv: *iv, offset }
    }
}

/// The least multiple of 16 that is `>= end`.
pub open spec fn round16_up(end: int) -> int {
    if end % 16 == 0 { end } else { end - end % 16 + 16 }
}

/// Copies the 16-byte ciphertext block at `pos`.
#[verifier::loop_isolation(false)]
fn read_block(ct: &[u8], pos: usize) -> (r: [u8; 16])
    requires
        pos + 16 <= ct@.len(),
    ensures
        r@ == ct@.subrange(pos as int, pos as int + 16),
{
    let n = ct.len();
    let mut b: [u8; 16] = [0u8; 16];
    let mut j: usize = 0;
    while j < 16
        invariant
            j <= 16,
            forall|k: int| 0 <= k < j ==> b@[k] == ct@[pos + k],
        decreases 16 - j,
    {
        b[j] = ct[pos + j];
        j = j + 1;
    }
    proof {
        assert(b@ =~= ct@.subrange(pos as int, pos as int + 16));
    }
    b
}

/// Decrypts exactly `len` plaintext bytes at logical offset `offset` of
/// the ciphertext `ct`, whose length must be a whole number of blocks
/// and must cover the requested range.  The result equals the
/// corresponding slice of the plaintext of the whole source decrypted
/// from offset zero with the zero IV, for any prior position of the
/// state; after a non-empty read the state is positioned at the end of
/// the last block the call decrypted.
pub fn read_encrypted(ct: &[u8], cbc_cache: &mut CbcCache, offset: usize, len: usize) -> (r: Vec<
    u8,
>)
    requires
        ct@.len() % 16 == 0,
        offset + len <= ct@.len(),
        old(cbc_cache).wf_for(ct@),
    ensures
        r@ == plain_of(old(cbc_cache).key_view(), ct@).subrange(
            offset as int,
            offset as int + len as int,
        ),
        final(cbc_cache).key_view() == old(cbc_cache).key_view(),
        final(cbc_cache).wf_for(ct@),
        len > 0 ==> final(cbc_cache).offset_view() == round16_up(offset as int + len as int),
        len == 0 ==> *final(cbc_cache) == *old(cbc_cache),
{
    let n = ct.len();
    proof {
        lemma_cbc_dec_len(cbc_cache.key_view(), zero16(), ct@);
    }
    if len == 0 {
        let r = Vec::<u8>::new();
        proof {
            assert(r@ =~= plain_of(cbc_cache.key_view(), ct@).subrange(
                offset as int,
                offset as int,
            ));
        }
        return r;
    }
    let a0 = offset - offset % 16;
    let end = offset + len;
    assert(end % 16 != 0 ==> end < n && end - end % 16 + 16 <= n);
    let a1 = if end % 16 == 0 {
        end
    } else {
        end - end % 16 + 16
    };
    assert(a0 % 16 == 0 && a1 % 16 == 0 && a0 < a1 <= ct@.len());

    // Re-seed if the state is positioned elsewhere: the chaining IV for
    // the block at `a0` is the previous ciphertext block, or the zero
    // IV at the start of the source.
    if cbc_cache.offset != a0 {
        if a0 == 0 {
            cbc_cache.iv = [0u8; 16];
            proof {
                assert(cbc_cache.iv@ =~= zero16());
            }
        } else {
            cbc_cache.iv = read_block(ct, a0 - 16);
        }
        cbc_cache.offset = a0;
    }

    let ghost key = cbc_cache.key_view();
    let ghost plain = plain_of(key, ct@);
    let mut out: Vec<u8> = Vec::new();
    let mut pos = a0;
    while pos < a1
        invariant
            a0 % 16 == 0,
            a0 <= pos <= a1 <= ct@.len(),
            pos % 16 == 0,
            a1 % 16 == 0,
            ct@.len() % 16 == 0,
            cbc_cache.key_view() == key,
            plain == plain_of(key, ct@),
            plain.len() == ct@.len(),
            cbc_cache.iv_view() == iv_at(ct@, pos as int),
            out@.len() == pos - a0,
            forall|k: int| 0 <= k < pos - a0 ==> #[trigger] out@[k] == plain[a0 + k],
        decreases a1 - pos,
    {
        let cblock = read_block(ct, pos);
        let pblock = aes256_decrypt_block(&cbc_cache.key, &cblock);
        proof {
            lemma_cbc_dec_block(key, zero16(), ct@, pos as int / 16);
            assert(16 * (pos as int / 16) == pos as int);
        }
        let mut j: usize = 0;
        while j < 16
            invariant
                j <= 16,
                pos + 16 <= ct@.len(),
                out@.len() == pos - a0 + j,
                plain == plain_of(key, ct@),
                plain.len() == ct@.len(),
                a0 <= pos,
                pblock@ == aes256_dec_block(key, ct@.subrange(pos as int, pos as int + 16)),
                cbc_cache.iv_view() == iv_at(ct@, pos as int),
                plain.subrange(pos as int, pos as int + 16) == xor16(pblock@, cbc_cache.iv_view()),
                forall|k: int| 0 <= k < pos - a0 + j ==> #[trigger] out@[k] == plain[a0 + k],
            decreases 16 - j,
        {
            out.push(pblock[j] ^ cbc_cache.iv[j]);
            proof {
                assert(xor16(pblock@, cbc_cache.iv_view())[j as int] == (pblock@[j as int]
                    ^ cbc_cache.iv_view()[j as int]));
                assert(plain.subrange(pos as int, pos as int + 16)[j as int] == plain[pos + j]);
                assert(plain[pos + j] == xor16(pblock@, cbc_cache.iv_view())[j as int]);
            }
            j = j + 1;
        }
        cbc_cache.iv = cblock;
        pos = pos + 16;
        proof {
            assert(cbc_cache.iv_view() == iv_at(ct@, pos as int));
        }
    }
    cbc_cache.offset = a1;
    let r = slice_to_vec(slice_subrange(out.as_slice(), offset - a0, offset - a0 + len));
    proof {
        assert(r@ =~= plain.subrange(offset as int, offset as int + len as int));
    }
    r
}

/// Whether a 16-byte plaintext block carries valid PKCS#5 padding: its
/// last byte `p` is between 1 and 16 and the last `p` bytes all equal
/// `p`.
pub open spec fn valid_pkcs5(last_block: Seq<u8>) -> bool {
    let p = last_block[15];
    1 <= p <= 16 && forall|i: int| 16 - p <= i < 16 ==> last_block[i] == p
}

/// Decrypts the final block of the source, which starts at
/// `padding_offset`, and reports whether it carries valid PKCS#5
/// padding.
#[verifier::loop_isolation(false)]
pub fn has_correct_pkcs5_padding(ct: &[u8], cbc_cache: &mut CbcCache, padding_offset: usize) -> (r:
    bool)
    requires
        ct@.len() % 16 == 0,
        padding_offset + 16 == ct@.len(),
        old(cbc_cache).wf_for(ct@),
    ensures
        r == valid_pkcs5(
            plain_of(old(cbc_cache).key_view(), ct@).subrange(
                ct@.len() - 16,
                ct@.len() as int,
            ),
        ),
        final(cbc_cache).key_view() == old(cbc_cache).key_view(),
        final(cbc_cache).wf_for(ct@),
{
    proof {
        lemma_cbc_dec_len(old(cbc_cache).key_view(), zero16(), ct@);
    }
    let block = read_encrypted(ct, cbc_cache, padding_offset, 16);
    let ghost last = plain_of(old(cbc_cache).key_view(), ct@).subrange(
        ct@.len() - 16,
        ct@.len() as int,
    );
    assert(block@ == last);
    let p = block[15];
    if p < 1 || p > 16 {
        proof {
            assert(last[15] < 1 || last[15] > 16);
        }
        return false;
    }
    let mut i: usize = 16 - p as usize;
    while i < 16
        invariant
            16 - p <= i <= 16,
            1 <= p <= 16,
            block@ == last,
            p == last[15],
            forall|k: int| 16 - p <= k < i ==> last[k] == p,
        decreases 16 - i,
    {
        if block[i] != p {
            proof {
                assert(last[i as int] != last[15]);
            }
            return false;
        }
        i = i + 1;
    }
    true
}

} // verus!
