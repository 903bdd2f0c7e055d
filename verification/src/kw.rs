//! Passphrase-driven key material: the two-round PBKDF2 derivation of
//! the key-encryption key, RFC 3394 AES key wrapping, the class-key
//! map, and the unwrapping of the manifest database key.

use vstd::prelude::*;
use crate::keybag::{KeyBag, KeyBagView, KeyBagClassView};
use aes_kw::KeyInit;

verus! {

/// What PBKDF2-HMAC-SHA256 derives (32 bytes); a function of the
/// password, salt and iteration count alone.
pub uninterp spec fn pbkdf2_sha256(password: Seq<u8>, salt: Seq<u8>, rounds: u32) -> Seq<u8>;

/// What PBKDF2-HMAC-SHA1 derives (32 bytes); a function of the
/// password, salt and iteration count alone.
pub uninterp spec fn pbkdf2_sha1(password: Seq<u8>, salt: Seq<u8>, rounds: u32) -> Seq<u8>;

/// What RFC 3394 AES-KW under a 32-byte KEK wraps a 32-byte key to
/// (40 bytes); a function of the KEK and the key alone.
pub uninterp spec fn kw_wrap(kek: Seq<u8>, key: Seq<u8>) -> Seq<u8>;

/// What RFC 3394 AES-KW under a 32-byte KEK unwraps 40 wrapped bytes
/// to: the 32-byte key when the integrity check passes, nothing
/// otherwise; a function of the KEK and the wrapped bytes alone.
pub uninterp spec fn kw_unwrap(kek: Seq<u8>, wrapped: Seq<u8>) -> Option<Seq<u8>>;

/// Relies on `pbkdf2::pbkdf2_hmac::<sha2::Sha256>`: derives 32 bytes
/// from the password, salt and iteration count, and nothing else.
#[verifier::external_body]
fn pbkdf2_hmac_sha256(password: &[u8], salt: &[u8], rounds: u32) -> (r: [u8; 32])
    ensures
        r@ == pbkdf2_sha256(password@, salt@, rounds),
{
    let mut out = [0u8; 32];
    pbkdf2::pbkdf2_hmac::<sha2::Sha256>(password, salt, rounds, &mut out);
    out
}

/// Relies on `pbkdf2::pbkdf2_hmac::<sha1::Sha1>`: derives 32 bytes
/// from the password, salt and iteration count, and nothing else.
#[verifier::external_body]
fn pbkdf2_hmac_sha1(password: &[u8], salt: &[u8], rounds: u32) -> (r: [u8; 32])
    ensures
        r@ == pbkdf2_sha1(password@, salt@, rounds),
{
    let mut out = [0u8; 32];
    pbkdf2::pbkdf2_hmac::<sha1::Sha1>(password, salt, rounds, &mut out);
    out
}

/// Relies on `aes_kw::AesKw::<aes::Aes256>::wrap_key` (RFC 3394): a
/// 32-byte key wrapped under a 32-byte KEK gives 40 bytes, and the
/// crate's `unwrap_key` recovers exactly the key from them.
#[verifier::external_body]
fn aes_kw_wrap(kek: &[u8; 32], key: &[u8; 32]) -> (r: [u8; 40])
    ensures
        r@ == kw_wrap(kek@, key@),
        kw_unwrap(kek@, r@) == Some(key@),
{
    let kw = aes_kw::AesKw::<aes::Aes256>::new_from_slice(&kek[..]).unwrap();
    let mut buf = [0u8; 40];
    kw.wrap_key(&key[..], &mut buf).unwrap();
    buf
}

/// Relies on `aes_kw::AesKw::<aes::Aes256>::unwrap_key` (RFC 3394):
/// with 40 input bytes and a 32-byte buffer the only failure left is
/// the integrity check; on success the buffer holds the key.
#[verifier::external_body]
fn aes_kw_unwrap(kek: &[u8; 32], wrapped: &[u8]) -> (r: Option<[u8; 32]>)
    requires
        wrapped@.len() == 40,
    ensures
        match r {
            Some(k) => kw_unwrap(kek@, wrapped@) == Some(k@),
            None => kw_unwrap(kek@, wrapped@) is None,
        },
{
    let kw = aes_kw::AesKw::<aes::Aes256>::new_from_slice(&kek[..]).unwrap();
    let mut buf = [0u8; 32];
    match kw.unwrap_key(wrapped, &mut buf) {
        Ok(_) => Some(buf),
        Err(_) => None,
    }
}

/// Wraps a 32-byte key under a 32-byte KEK.  The 40-byte result
/// unwraps back to exactly the key it was made from.
pub fn wrap_key(kek: &[u8; 32], key: &[u8; 32]) -> (r: [u8; 40])
    ensures
        r@ == kw_wrap(kek@, key@),
        kw_unwrap(kek@, r@) == Some(key@),
{
    aes_kw_wrap(kek, key)
}

/// Unwraps 40 wrapped bytes under a 32-byte KEK; `None` exactly when
/// the input is not 40 bytes or its integrity check fails.
pub fn unwrap_key(kek: &[u8; 32], wrapped: &[u8]) -> (r: Option<[u8; 32]>)
    ensures
        match r {
            Some(k) => wrapped@.len() == 40 && kw_unwrap(kek@, wrapped@) == Some(k@),
            None => wrapped@.len() != 40 || kw_unwrap(kek@, wrapped@) is None,
        },
{
    if wrapped.len() != 40 {
        return None;
    }
    aes_kw_unwrap(kek, wrapped)
}

/// The KEK bytes derived from a passphrase: PBKDF2-HMAC-SHA256 over the
/// data-protection salt and count, then PBKDF2-HMAC-SHA1 over the
/// keybag salt and count.
pub open spec fn derived_kek(kb: KeyBagView, password: Seq<u8>) -> Seq<u8> {
    pbkdf2_sha1(pbkdf2_sha256(password, kb.dpsl, kb.dpic), kb.salt, kb.iter)
}

/// Runs the two PBKDF2 rounds of the keybag on a passphrase.
pub fn derive_kek(bkb: &KeyBag, password: &[u8]) -> (r: [u8; 32])
    ensures
        r@ == derived_kek(bkb@, password@),
{
    let round1 = pbkdf2_hmac_sha256(password, bkb.dpsl.as_slice(), bkb.dpic);
    pbkdf2_hmac_sha1(round1.as_slice(), bkb.salt.as_slice(), bkb.iter)
}

/// Why unlocking the keybag failed: a protected class entry whose
/// integrity check rejected the passphrase, or one whose wrapped key
/// has the wrong size.
#[derive(Clone, Copy, Debug, PartialEq, Eq, Structural)]
pub enum UnlockError {
    IncorrectPassphrase,
    BadWrappedKeyLength,
}

/// The first key stored under class `c`, if any.
pub open spec fn spec_lookup(s: Seq<(u32, Seq<u8>)>, c: u32) -> Option<Seq<u8>>
    decreases s.len(),
{
    if s.len() == 0 {
        None
    } else if s[0].0 == c {
        Some(s[0].1)
    } else {
        spec_lookup(s.skip(1), c)
    }
}

/// The class-key map: each protected class of the keybag together with
/// its unwrapped 256-bit key, in keybag order.
#[derive(Debug)]
pub struct ClassKeys {
    entries: Vec<(u32, [u8; 32])>,
}

impl View for ClassKeys {
    type V = Seq<(u32, Seq<u8>)>;

    closed spec fn view(&self) -> Seq<(u32, Seq<u8>)> {
        self.entries@.map_values(|e: (u32, [u8; 32])| (e.0, e.1@))
    }
}

impl ClassKeys {
    /// The key stored for class `c`, or `None`.
    pub fn lookup(&self, c: u32) -> (r: Option<[u8; 32]>)
        ensures
            match r {
                Some(k) => spec_lookup(self@, c) == Some(k@),
                None => spec_lookup(self@, c) is None,
            },
    {
        let n = self.entries.len();
        proof {
            assert(self@.skip(0) =~= self@);
        }
        let mut i: usize = 0;
        while i < n
            invariant
                i <= n,
                n == self.entries@.len(),
                self@.len() == n,
                spec_lookup(self@, c) == spec_lookup(self@.skip(i as int), c),
                forall|j: int| 0 <= j < n ==> #[trigger] self@[j] == (self.entries@[j].0, self.entries@[j].1@),
            decreases n - i,
        {
            if self.entries[i].0 == c {
                return Some(self.entries[i].1);
            }
            proof {
                assert(self@.skip(i as int).skip(1) =~= self@.skip(i as int + 1));
            }
            i = i + 1;
        }
        proof {
            assert(self@.skip(n as int) =~= Seq::<(u32, Seq<u8>)>::empty());
        }
        None
    }
}

/// The outcome of unwrapping the protected class entries with a KEK:
/// walks the entries in order; an entry without the protection bit is
/// skipped, one with a wrapped key that is not 40 bytes is fatal, and
/// one whose integrity check fails rejects the passphrase.
pub open spec fn unlock_classes(kek: Seq<u8>, others: Seq<KeyBagClassView>) -> Result<
    Seq<(u32, Seq<u8>)>,
    UnlockError,
>
    decreases others.len(),
{
    if others.len() == 0 {
        Result::Ok(Seq::empty())
    } else {
        let c = others[0];
        if c.wrap & 2 == 2 {
            if c.wpky.len() != 40 {
                Result::Err(UnlockError::BadWrappedKeyLength)
            } else {
                match kw_unwrap(kek, c.wpky) {
                    Option::Some(k) => match unlock_classes(kek, others.skip(1)) {
                        Result::Ok(rest) => Result::Ok(seq![(c.clas, k)] + rest),
                        Result::Err(e) => Result::Err(e),
                    },
                    Option::None => Result::Err(UnlockError::IncorrectPassphrase),
                }
            }
        } else {
            unlock_classes(kek, others.skip(1))
        }
    }
}

/// Derives the KEK from the passphrase and unwraps every protected
/// class key.  Succeeds with the full class-key map exactly when every
/// protected entry unwraps; an integrity-check failure reports an
/// incorrect passphrase.
#[verifier::loop_isolation(false)]
pub fn verify_passphrase(bkb: &KeyBag, password: &[u8]) -> (r: Result<ClassKeys, UnlockError>)
    ensures
        match r {
            Ok(keys) => unlock_classes(derived_kek(bkb@, password@), bkb@.others) == Result::<
                Seq<(u32, Seq<u8>)>,
                UnlockError,
            >::Ok(keys@),
            Err(e) => unlock_classes(derived_kek(bkb@, password@), bkb@.others) == Result::<
                Seq<(u32, Seq<u8>)>,
                UnlockError,
            >::Err(e),
        },
{
    let kek = derive_kek(bkb, password);
    let n = bkb.others.len();
    let mut entries: Vec<(u32, [u8; 32])> = Vec::new();
    let ghost views = bkb@.others;
    proof {
        assert(views.skip(0) =~= views);
    }
    let mut i: usize = 0;
    while i < n
        invariant
            i <= n,
            n == bkb.others@.len(),
            views.len() == n,
            (match unlock_classes(kek@, views.skip(i as int)) {
                Result::Ok(rest) => unlock_classes(kek@, views) == Result::<
                    Seq<(u32, Seq<u8>)>,
                    UnlockError,
                >::Ok(entries@.map_values(|e: (u32, [u8; 32])| (e.0, e.1@)) + rest),
                Result::Err(e) => unlock_classes(kek@, views) == Result::<
                    Seq<(u32, Seq<u8>)>,
                    UnlockError,
                >::Err(e),
            }),
        decreases n - i,
    {
        let ghost here = views.skip(i as int);
        proof {
            assert(here[0] == views[i as int]);
            assert(here.skip(1) =~= views.skip(i as int + 1));
        }
        let entry = &bkb.others[i];
        if entry.wrap & 2 == 2 {
            if entry.wpky.len() != 40 {
                return Err(UnlockError::BadWrappedKeyLength);
            }
            match aes_kw_unwrap(&kek, entry.wpky.as_slice()) {
                Some(k) => {
                    let ghost old_map = entries@.map_values(|e: (u32, [u8; 32])| (e.0, e.1@));
                    entries.push((entry.clas, k));
                    proof {
                        assert(entries@.map_values(|e: (u32, [u8; 32])| (e.0, e.1@)) =~= old_map
                            + seq![(views[i as int].clas, k@)]);
                        match unlock_classes(kek@, views.skip(i as int + 1)) {
                            Result::Ok(rest) => {
                                assert((old_map + seq![(views[i as int].clas, k@)]) + rest =~=
                                    old_map + (seq![(views[i as int].clas, k@)] + rest));
                            },
                            Result::Err(e) => {},
                        }
                    }
                },
                None => {
                    return Err(UnlockError::IncorrectPassphrase);
                },
            }
        }
        i = i + 1;
    }
    proof {
        assert(views.skip(n as int) =~= Seq::<KeyBagClassView>::empty());
        assert(entries@.map_values(|e: (u32, [u8; 32])| (e.0, e.1@)) + Seq::<
            (u32, Seq<u8>),
        >::empty() =~= entries@.map_values(|e: (u32, [u8; 32])| (e.0, e.1@)));
    }
    Ok(ClassKeys { entries })
}

/// A little-endian u32 from 4 bytes.
#[verifier::opaque]
pub open spec fn le_u32_of(b: Seq<u8>) -> u32 {
    (b[0] as nat + b[1] as nat * 0x100 + b[2] as nat * 0x10000 + b[3] as nat * 0x1000000) as u32
}

/// Reads 4 bytes at the start of `data` as a little-endian integer.
fn read_le_u32(data: &[u8]) -> (r: u32)
    requires
        data@.len() >= 4,
    ensures
        r == le_u32_of(data@.take(4)),
{
    let b0 = data[0] as u32;
    let b1 = data[1] as u32;
    let b2 = data[2] as u32;
    let b3 = data[3] as u32;
    let r = b0 + b1 * 0x100 + b2 * 0x10000 + b3 * 0x1000000;
    proof {
        reveal(le_u32_of);
        let s = data@.take(4);
        assert(s[0] == data@[0] && s[1] == data@[1] && s[2] == data@[2] && s[3] == data@[3]);
    }
    r
}

/// Why the manifest-database key could not be recovered.
#[derive(Clone, Copy, Debug, PartialEq, Eq, Structural)]
pub enum ManifestKeyError {
    BadLength,
    UnknownClass,
    IntegrityCheckFailed,
}

/// The manifest-database key denoted by a wrapped manifest key: its
/// first 4 bytes name a class little-endian, whose class key unwraps
/// the remaining 40 bytes.
pub open spec fn manifest_key_spec(keys: Seq<(u32, Seq<u8>)>, mk: Seq<u8>) -> Result<
    Seq<u8>,
    ManifestKeyError,
> {
    if mk.len() != 44 {
        Result::Err(ManifestKeyError::BadLength)
    } else {
        match spec_lookup(keys, le_u32_of(mk.take(4))) {
            Option::None => Result::Err(ManifestKeyError::UnknownClass),
            Option::Some(kek) => match kw_unwrap(kek, mk.skip(4)) {
                Option::Some(k) => Result::Ok(k),
                Option::None => Result::Err(ManifestKeyError::IntegrityCheckFailed),
            },
        }
    }
}

/// Recovers the 256-bit manifest-database key: the wrapped manifest
/// key's 4-byte little-endian prefix picks the class key, which
/// unwraps the remaining 40 bytes.
pub fn unwrap_manifest_key(keys: &ClassKeys, manifest_key: &[u8]) -> (r: Result<
    [u8; 32],
    ManifestKeyError,
>)
    ensures
        match r {
            Ok(k) => manifest_key_spec(keys@, manifest_key@) == Result::<
                Seq<u8>,
                ManifestKeyError,
            >::Ok(k@),
            Err(e) => manifest_key_spec(keys@, manifest_key@) == Result::<
                Seq<u8>,
                ManifestKeyError,
            >::Err(e),
        },
{
    if manifest_key.len() != 44 {
        return Err(ManifestKeyError::BadLength);
    }
    let cls = read_le_u32(manifest_key);
    let kek = match keys.lookup(cls) {
        Some(kek) => kek,
        None => {
            return Err(ManifestKeyError::UnknownClass);
        },
    };
    let wrapped = vstd::slice::slice_subrange(manifest_key, 4, 44);
    proof {
        assert(wrapped@ =~= manifest_key@.skip(4));
    }
    match aes_kw_unwrap(&kek, wrapped) {
        Some(k) => Ok(k),
        None => Err(ManifestKeyError::IntegrityCheckFailed),
    }
}

} // verus!
