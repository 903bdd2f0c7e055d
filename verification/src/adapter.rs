//! The request logic behind the filesystem callbacks: attributes,
//! lookups, directory enumeration, opening a content file (key
//! unwrapping, size and digest and padding checks) and clamped,
//! zero-filled reads through the CBC reader.

use vstd::prelude::*;
use crate::archive::{MBFile, XattrPayload, XattrValue};
use crate::enc_reader::{plain_of, valid_pkcs5, CbcCache, has_correct_pkcs5_padding, read_encrypted};
use crate::fstree::{kids, wf, lookup_in, FileType, FS};
use crate::kw::{manifest_key_spec, ClassKeys, ManifestKeyError};
use sha1::Digest;

verus! {

/// The errno values the adapter reports.
#[derive(Clone, Copy, Debug, PartialEq, Eq, Structural)]
pub enum Errno {
    Enoent,
    Eio,
    E2big,
    Enotdir,
    Erange,
    Enosys,
    Enodata,
}

/// The POSIX number of each errno value.
pub open spec fn errno_code(e: Errno) -> i32 {
    match e {
        Errno::Enoent => 2,
        Errno::Eio => 5,
        Errno::E2big => 7,
        Errno::Enotdir => 20,
        Errno::Erange => 34,
        Errno::Enosys => 38,
        Errno::Enodata => 61,
    }
}

impl Errno {
    /// The POSIX number of this errno value.
    pub fn code(self) -> (r: i32)
        ensures
            r == errno_code(self),
    {
        match self {
            Errno::Enoent => 2,
            Errno::Eio => 5,
            Errno::E2big => 7,
            Errno::Enotdir => 20,
            Errno::Erange => 34,
            Errno::Enosys => 38,
            Errno::Enodata => 61,
        }
    }
}

/// What SHA-1 digests a byte sequence to (20 bytes); a function of the
/// bytes alone.
pub uninterp spec fn sha1_of(data: Seq<u8>) -> Seq<u8>;

/// Relies on `sha1::Sha1` (`Digest::digest`): the 20-byte SHA-1 digest
/// of the input bytes, and nothing else.
#[verifier::external_body]
fn sha1_digest(data: &[u8]) -> (r: [u8; 20])
    ensures
        r@ == sha1_of(data@),
{
    sha1::Sha1::digest(data).into()
}

/// Byte-slice equality.
#[verifier::loop_isolation(false)]
fn eq_bytes(a: &[u8], b: &[u8]) -> (r: bool)
    ensures
        r == (a@ == b@),
{
    let n = a.len();
    if n != b.len() {
        proof {
            assert(a@.len() != b@.len());
        }
        return false;
    }
    let mut i: usize = 0;
    while i < n
        invariant
            i <= n,
            forall|k: int| 0 <= k < i ==> a@[k] == b@[k],
        decreases n - i,
    {
        if a[i] != b[i] {
            return false;
        }
        i = i + 1;
    }
    proof {
        assert(a@ =~= b@);
    }
    true
}

/// The attributes the adapter answers for an inode, with times in
/// whole seconds since the epoch.
pub struct FileAttrData {
    pub ino: u64,
    pub size: u64,
    pub blocks: u64,
    pub atime: u64,
    pub mtime: u64,
    pub ctime: u64,
    pub crtime: u64,
    pub kind: FileType,
    pub perm: u16,
    pub nlink: u32,
    pub uid: u32,
    pub gid: u32,
    pub rdev: u32,
    pub flags: u32,
    pub blksize: u32,
}

/// The larger of two values.
pub open spec fn max3(a: u64, b: u64, c: u64) -> u64 {
    if a >= b && a >= c {
        a
    } else if b >= c {
        b
    } else {
        c
    }
}

/// Builds the attribute answer for inode `ino` from its tree entry and
/// its metadata record (absent for the reserved and root inodes): a
/// folder's size is its child count, a file's the recorded byte size;
/// times come from the record, the access time being the latest of
/// them; permissions are fixed at 0o777 and the block size at 4096.
pub fn file_attr(fs: &FS, ino: usize, m: &Option<MBFile>) -> (r: FileAttrData)
    requires
        wf(fs.backing@),
        ino < fs.backing@.len(),
    ensures
        r.ino == ino as u64,
        r.kind == fs.backing@[ino as int].ftype,
        fs.backing@[ino as int].ftype == FileType::Folder ==> r.size == kids(
            fs.backing@,
            ino as int,
        ).len(),
        fs.backing@[ino as int].ftype == FileType::File ==> r.size == (match m {
            Some(mb) => mb.size,
            None => 0,
        }),
        r.crtime == (match m { Some(mb) => mb.birth, None => 0 }),
        r.ctime == (match m { Some(mb) => mb.last_status_change, None => 0 }),
        r.mtime == (match m { Some(mb) => mb.last_modified, None => 0 }),
        r.atime == max3(r.crtime, r.ctime, r.mtime),
        r.uid == (match m { Some(mb) => mb.user_id as u32, None => 0 }),
        r.gid == (match m { Some(mb) => mb.group_id as u32, None => 0 }),
        r.flags == (match m { Some(mb) => mb.flags as u32, None => 0 }),
        r.perm == 0x1ff,
        r.blksize == 4096,
        r.blocks == 0 && r.nlink == 0 && r.rdev == 0,
{
    let kind = fs.backing[ino].ftype;
    let size: u64 = match kind {
        FileType::Folder => {
            match &fs.backing[ino].children {
                Some(c) => c.len() as u64,
                None => 0,
            }
        },
        FileType::File => {
            match m {
                Some(mb) => mb.size,
                None => 0,
            }
        },
    };
    let crtime: u64 = match m {
        Some(mb) => mb.birth,
        None => 0,
    };
    let ctime: u64 = match m {
        Some(mb) => mb.last_status_change,
        None => 0,
    };
    let mtime: u64 = match m {
        Some(mb) => mb.last_modified,
        None => 0,
    };
    let atime = if crtime >= ctime && crtime >= mtime {
        crtime
    } else if ctime >= mtime {
        ctime
    } else {
        mtime
    };
    let uid: u32 = match m {
        Some(mb) => #[verifier::truncate] (mb.user_id as u32),
        None => 0,
    };
    let gid: u32 = match m {
        Some(mb) => #[verifier::truncate] (mb.group_id as u32),
        None => 0,
    };
    let flags: u32 = match m {
        Some(mb) => #[verifier::truncate] (mb.flags as u32),
        None => 0,
    };
    FileAttrData {
        ino: ino as u64,
        size,
        blocks: 0,
        atime,
        mtime,
        ctime,
        crtime,
        kind,
        perm: 0x1ff,
        nlink: 0,
        uid,
        gid,
        rdev: 0,
        flags,
        blksize: 4096,
    }
}

/// Finds `name` among the children of `parent`: its inode index, or
/// `Enoent` when the parent is no folder or the name is not there.
pub fn lookup(fs: &FS, parent: usize, name: &String) -> (r: Result<usize, Errno>)
    requires
        wf(fs.backing@),
    ensures
        match r {
            Ok(c) => {
                &&& parent < fs.backing@.len()
                &&& fs.backing@[parent as int].children is Some
                &&& lookup_in(kids(fs.backing@, parent as int), name@) == Some(c as int)
                &&& c < fs.backing@.len()
            },
            Err(e) => {
                &&& e == Errno::Enoent
                &&& (parent >= fs.backing@.len() || fs.backing@[parent as int].children is None
                    || lookup_in(kids(fs.backing@, parent as int), name@) is None)
            },
        },
{
    if parent >= fs.backing.len() {
        return Err(Errno::Enoent);
    }
    match &fs.backing[parent].children {
        None => Err(Errno::Enoent),
        Some(c) => {
            match crate::fstree::find_child(c, name) {
                Some(child) => {
                    proof {
                        crate::fstree::lemma_lookup_some_contains(
                            kids(fs.backing@, parent as int),
                            name@,
                            child as int,
                        );
                    }
                    Ok(child)
                },
                None => Err(Errno::Enoent),
            }
        },
    }
}

/// Admits opening a directory: the inode must exist and be a folder;
/// a file answers `Enotdir`, a missing inode `Enoent`.
pub fn opendir(fs: &FS, ino: usize) -> (r: Result<(), Errno>)
    requires
        wf(fs.backing@),
    ensures
        match r {
            Ok(()) => ino < fs.backing@.len() && fs.backing@[ino as int].ftype == FileType::Folder,
            Err(Errno::Enotdir) => ino < fs.backing@.len() && fs.backing@[ino as int].ftype
                == FileType::File,
            Err(Errno::Enoent) => ino >= fs.backing@.len(),
            Err(_) => false,
        },
{
    if ino >= fs.backing.len() {
        return Err(Errno::Enoent);
    }
    match fs.backing[ino].ftype {
        FileType::Folder => Ok(()),
        FileType::File => Err(Errno::Enotdir),
    }
}

/// Enumerates the children of folder `ino` from position `offset` on,
/// in insertion order: for each, its inode, the position after it (the
/// offset to resume from), its kind and its name.  A full enumeration
/// from offset 0 thus yields exactly as many entries as the folder's
/// reported size.
#[verifier::loop_isolation(false)]
pub fn readdir(fs: &FS, ino: usize, offset: usize) -> (r: Result<
    Vec<(usize, usize, FileType, String)>,
    Errno,
>)
    requires
        wf(fs.backing@),
    ensures
        match r {
            Ok(v) => {
                let ks = kids(fs.backing@, ino as int);
                &&& ino < fs.backing@.len()
                &&& fs.backing@[ino as int].children is Some
                &&& v@.len() == if offset <= ks.len() {
                    ks.len() - offset
                } else {
                    0int
                }
                &&& forall|q: int|
                    0 <= q < v@.len() ==> {
                        &&& (#[trigger] v@[q]).0 == ks[offset + q].1
                        &&& v@[q].1 == offset + q + 1
                        &&& v@[q].2 == fs.backing@[ks[offset + q].1].ftype
                        &&& v@[q].3@ == ks[offset + q].0
                    }
            },
            Err(e) => {
                &&& e == Errno::Enoent
                &&& (ino >= fs.backing@.len() || fs.backing@[ino as int].children is None)
            },
        },
{
    if ino >= fs.backing.len() {
        return Err(Errno::Enoent);
    }
    let ghost ks = kids(fs.backing@, ino as int);
    let k = match &fs.backing[ino].children {
        None => {
            return Err(Errno::Enoent);
        },
        Some(c) => c.len(),
    };
    proof {
        assert(ks.len() == k);
    }
    let mut v: Vec<(usize, usize, FileType, String)> = Vec::new();
    if offset > k {
        return Ok(v);
    }
    let mut q = offset;
    while q < k
        invariant
            offset <= q <= k,
            v@.len() == q - offset,
            forall|p: int|
                0 <= p < v@.len() ==> {
                    &&& (#[trigger] v@[p]).0 == ks[offset + p].1
                    &&& v@[p].1 == offset + p + 1
                    &&& v@[p].2 == fs.backing@[ks[offset + p].1].ftype
                    &&& v@[p].3@ == ks[offset + p].0
                },
        decreases k - q,
    {
        let (name, child): (String, usize) = match &fs.backing[ino].children {
            Some(c) => (c[q].0.clone(), c[q].1),
            None => (String::new(), 0),
        };
        proof {
            assert(ks[q as int] == (
                fs.backing@[ino as int].children.unwrap()@[q as int].0@,
                fs.backing@[ino as int].children.unwrap()@[q as int].1 as int,
            ));
            assert(0 <= ks[q as int].1 < fs.backing@.len());
        }
        let kind = fs.backing[child].ftype;
        v.push((child, q + 1, kind, name));
        q = q + 1;
    }
    Ok(v)
}

/// A folder's reported size equals the number of entries a full
/// enumeration of it yields: the attribute answer carries the child
/// count, and an enumeration from offset zero yields one entry per
/// child.
pub proof fn lemma_folder_size_matches_enumeration(
    b: Seq<crate::fstree::Inode>,
    ino: int,
    attr_size: u64,
    n_entries: int,
)
    requires
        wf(b),
        0 <= ino < b.len(),
        b[ino].ftype == FileType::Folder,
        attr_size == kids(b, ino).len(),
        n_entries == kids(b, ino).len(),
    ensures
        attr_size == n_entries,
{
}

/// Why a content file could not be opened.
#[derive(Clone, Copy, Debug, PartialEq, Eq, Structural)]
pub enum OpenError {
    MissingKey,
    BadKeyLength,
    UnknownClass,
    KeyIntegrity,
    BadSize,
    DigestMismatch,
    BadPadding,
}

/// The checks that opening a content file performs, in order: the
/// record must carry a wrapped key that the class-key map unwraps; the
/// ciphertext must be a non-empty whole number of blocks; when digest
/// verification is on and the record has a digest, the ciphertext's
/// SHA-1 must match it; and the final block must carry valid PKCS#5
/// padding.  Yields the unwrapped content key.
pub open spec fn open_check(
    ct: Seq<u8>,
    m: MBFile,
    keys: Seq<(u32, Seq<u8>)>,
    verify_digests: bool,
) -> Result<Seq<u8>, OpenError> {
    match m.encryption_key {
        Option::None => Result::Err(OpenError::MissingKey),
        Option::Some(ek) => match manifest_key_spec(keys, ek@) {
            Result::Err(ManifestKeyError::BadLength) => Result::Err(OpenError::BadKeyLength),
            Result::Err(ManifestKeyError::UnknownClass) => Result::Err(OpenError::UnknownClass),
            Result::Err(ManifestKeyError::IntegrityCheckFailed) => Result::Err(
                OpenError::KeyIntegrity,
            ),
            Result::Ok(key) => {
                if !(ct.len() % 16 == 0 && ct.len() >= 16) {
                    Result::Err(OpenError::BadSize)
                } else if verify_digests && m.digest is Some && sha1_of(ct) != m.digest.unwrap()@ {
                    Result::Err(OpenError::DigestMismatch)
                } else if !valid_pkcs5(plain_of(key, ct).subrange(ct.len() - 16, ct.len() as int)) {
                    Result::Err(OpenError::BadPadding)
                } else {
                    Result::Ok(key)
                }
            },
        },
    }
}

/// An open content file: the whole ciphertext, the reusable CBC
/// state, and the two sizes that clamp reads — how many plaintext
/// bytes exist on disk, and how large the file claims to be.
#[derive(Debug)]
pub struct OpenFile {
    ct: Vec<u8>,
    cbc: CbcCache,
    encrypted_size: usize,
    logical_size: usize,
}

impl OpenFile {
    /// The plaintext of the whole ciphertext under this handle's key.
    pub closed spec fn plain(&self) -> Seq<u8> {
        plain_of(self.cbc.key_view(), self.ct@)
    }

    /// The number of plaintext bytes that can be decrypted.
    pub closed spec fn encrypted_size_view(&self) -> int {
        self.encrypted_size as int
    }

    /// The size the file claims; reads beyond the decryptable part up
    /// to here are zero-filled.
    pub closed spec fn logical_size_view(&self) -> int {
        self.logical_size as int
    }

    /// The handle is consistent: whole blocks, at least one, the CBC
    /// state positioned inside the ciphertext, and the decryptable
    /// part within it.
    pub closed spec fn wf(&self) -> bool {
        &&& self.ct@.len() % 16 == 0
        &&& self.ct@.len() >= 16
        &&& self.cbc.wf_for(self.ct@)
        &&& self.encrypted_size <= self.ct@.len()
        &&& self.encrypted_size <= self.logical_size
    }

    /// Opens a content file: unwraps the per-file key with the
    /// class-key map, checks the ciphertext size, the digest when
    /// asked, and the padding, and returns the seekable handle.  The
    /// decryptable size is the recorded file size, except that a
    /// ciphertext shorter than the record claims loses its final
    /// padding block; the logical size is always the recorded size.
    pub fn open(
        ct: Vec<u8>,
        m: &MBFile,
        keys: &ClassKeys,
        verify_digests: bool,
    ) -> (r: Result<OpenFile, OpenError>)
        requires
            m.size <= usize::MAX,
        ensures
            match r {
                Ok(f) => {
                    &&& open_check(ct@, *m, keys@, verify_digests) matches Ok(key) && f.plain()
                        == plain_of(key, ct@)
                    &&& f.wf()
                    &&& f.logical_size_view() == m.size
                    &&& f.encrypted_size_view() == if ct@.len() < m.size {
                        ct@.len() - 16
                    } else {
                        m.size as int
                    }
                },
                Err(e) => open_check(ct@, *m, keys@, verify_digests) == Result::<
                    Seq<u8>,
                    OpenError,
                >::Err(e),
            },
    {
        let ek = match &m.encryption_key {
            None => {
                return Err(OpenError::MissingKey);
            },
            Some(ek) => ek,
        };
        let key = match crate::kw::unwrap_manifest_key(keys, ek.as_slice()) {
            Ok(k) => k,
            Err(ManifestKeyError::BadLength) => {
                return Err(OpenError::BadKeyLength);
            },
            Err(ManifestKeyError::UnknownClass) => {
                return Err(OpenError::UnknownClass);
            },
            Err(ManifestKeyError::IntegrityCheckFailed) => {
                return Err(OpenError::KeyIntegrity);
            },
        };
        let filesize = ct.len();
        if !(filesize % 16 == 0 && filesize >= 16) {
            return Err(OpenError::BadSize);
        }
        if verify_digests {
            match &m.digest {
                Some(d) => {
                    let h = sha1_digest(ct.as_slice());
                    if !eq_bytes(h.as_slice(), d.as_slice()) {
                        return Err(OpenError::DigestMismatch);
                    }
                },
                None => {},
            }
        }
        let mut cbc = CbcCache::new(key, &[0u8; 16], 0);
        proof {
            assert(cbc.iv_view() =~= crate::enc_reader::zero16());
        }
        if !has_correct_pkcs5_padding(ct.as_slice(), &mut cbc, filesize - 16) {
            return Err(OpenError::BadPadding);
        }
        let encrypted_size: usize = if (filesize as u64) < m.size {
            filesize - 16
        } else {
            m.size as usize
        };
        let logical_size: usize = m.size as usize;
        Ok(OpenFile { ct, cbc, encrypted_size, logical_size })
    }

    /// Answers a read of `size` bytes at `offset`: empty exactly at
    /// the logical end, `Enoent` beyond it; otherwise the decrypted
    /// bytes up to the decryptable end, zero-filled up to the logical
    /// end, clamped to the requested size.
    #[verifier::loop_isolation(false)]
    pub fn read(&mut self, offset: usize, size: u32) -> (r: Result<Vec<u8>, Errno>)
        requires
            old(self).wf(),
        ensures
            final(self).wf(),
            final(self).plain() == old(self).plain(),
            final(self).encrypted_size_view() == old(self).encrypted_size_view(),
            final(self).logical_size_view() == old(self).logical_size_view(),
            match r {
                Ok(buf) => {
                    let logical = old(self).logical_size_view();
                    let enc = old(self).encrypted_size_view();
                    let end = offset + size as int;
                    let zstop = if end <= logical {
                        end
                    } else {
                        logical
                    };
                    let dstop = if offset >= enc {
                        offset as int
                    } else if end <= enc {
                        end
                    } else {
                        enc
                    };
                    &&& offset <= logical
                    &&& buf@.len() == zstop - offset
                    &&& (offset < enc ==> buf@.subrange(0, dstop - offset) == old(
                        self,
                    ).plain().subrange(offset as int, dstop))
                    &&& forall|k: int| dstop - offset <= k < zstop - offset ==> buf@[k] == 0
                },
                Err(e) => e == Errno::Enoent && offset > old(self).logical_size_view(),
            },
    {
        if offset == self.logical_size {
            return Ok(Vec::new());
        }
        if offset > self.logical_size {
            return Err(Errno::Enoent);
        }
        let end_capped: usize = if size as usize <= self.logical_size - offset {
            offset + size as usize
        } else {
            self.logical_size
        };
        let zero_size = end_capped - offset;
        let decrypt_size: usize = if offset >= self.encrypted_size {
            0
        } else if size as usize <= self.encrypted_size - offset {
            size as usize
        } else {
            self.encrypted_size - offset
        };
        let ghost plain0 = self.plain();
        proof {
            crate::enc_reader::lemma_cbc_dec_len(
                self.cbc.key_view(),
                crate::enc_reader::zero16(),
                self.ct@,
            );
            assert(decrypt_size <= zero_size);
        }
        let mut buf: Vec<u8> = if decrypt_size > 0 {
            read_encrypted(self.ct.as_slice(), &mut self.cbc, offset, decrypt_size)
        } else {
            Vec::new()
        };
        proof {
            assert(buf@.subrange(0, decrypt_size as int) =~= buf@);
        }
        let ghost enc0 = self.encrypted_size_view();
        let ghost log0 = self.logical_size_view();
        while buf.len() < zero_size
            invariant
                decrypt_size <= buf@.len() <= zero_size,
                decrypt_size > 0 ==> buf@.subrange(0, decrypt_size as int) == plain0.subrange(
                    offset as int,
                    offset + decrypt_size,
                ),
                forall|k: int| decrypt_size <= k < buf@.len() ==> buf@[k] == 0,
                self.wf(),
                self.plain() == plain0,
                self.encrypted_size_view() == enc0,
                self.logical_size_view() == log0,
            decreases zero_size - buf.len(),
        {
            let ghost pre = buf@;
            buf.push(0u8);
            proof {
                assert(buf@.subrange(0, decrypt_size as int) =~= pre.subrange(
                    0,
                    decrypt_size as int,
                ));
            }
        }
        Ok(buf)
    }
}

/// The first value stored under `name`, by the name's characters.
pub open spec fn xattr_lookup(entries: Seq<(String, XattrValue)>, name: Seq<char>) -> Option<
    XattrValue,
>
    decreases entries.len(),
{
    if entries.len() == 0 {
        None
    } else if entries[0].0@ == name {
        Some(entries[0].1)
    } else {
        xattr_lookup(entries.skip(1), name)
    }
}

/// Answers a `getxattr` request from a file's record: `Enodata` when
/// the attribute is absent (or the record has none), `Eio` when the
/// payload is not a dictionary or the value is no byte string; with a
/// zero-size probe the value's length, with a buffer too small
/// `Erange`, and otherwise the bytes.
#[derive(Debug)]
pub enum XattrReply {
    Size(u32),
    Data(Vec<u8>),
}

impl MBFile {
    /// Looks up one extended attribute; see `XattrReply`.
    #[verifier::loop_isolation(false)]
    pub fn getxattr(&self, name: &String, size: u32) -> (r: Result<XattrReply, Errno>)
        ensures
            match r {
                Ok(XattrReply::Size(n)) => {
                    &&& size == 0
                    &&& self.extended_attributes matches Some(XattrPayload::Dict(es))
                    &&& xattr_lookup(es@, name@) matches Some(XattrValue::Data(d)) && n == d@.len() as u32
                },
                Ok(XattrReply::Data(b)) => {
                    &&& size != 0
                    &&& self.extended_attributes matches Some(XattrPayload::Dict(es))
                    &&& xattr_lookup(es@, name@) matches Some(XattrValue::Data(d)) && b@ == d@
                        && d@.len() <= size
                },
                Err(Errno::Enodata) => {
                    ||| self.extended_attributes is None
                    ||| (self.extended_attributes matches Some(XattrPayload::Dict(es))
                        && xattr_lookup(es@, name@) is None)
                },
                Err(Errno::Eio) => {
                    ||| self.extended_attributes matches Some(XattrPayload::NotDict)
                    ||| (self.extended_attributes matches Some(XattrPayload::Dict(es))
                        && xattr_lookup(es@, name@) matches Some(XattrValue::Other))
                },
                Err(Errno::Erange) => {
                    &&& size != 0
                    &&& self.extended_attributes matches Some(XattrPayload::Dict(es))
                    &&& xattr_lookup(es@, name@) matches Some(XattrValue::Data(d)) && d@.len()
                        > size
                },
                Err(_) => false,
            },
    {
        let es = match &self.extended_attributes {
            None => {
                return Err(Errno::Enodata);
            },
            Some(XattrPayload::NotDict) => {
                return Err(Errno::Eio);
            },
            Some(XattrPayload::Dict(es)) => es,
        };
        let n = es.len();
        proof {
            assert(es@.skip(0) =~= es@);
        }
        let mut i: usize = 0;
        while i < n
            invariant
                i <= n,
                n == es@.len(),
                xattr_lookup(es@, name@) == xattr_lookup(es@.skip(i as int), name@),
            decreases n - i,
        {
            proof {
                assert(es@.skip(i as int)[0] == es@[i as int]);
            }
            if es[i].0.eq(name) {
                match &es[i].1 {
                    XattrValue::Other => {
                        return Err(Errno::Eio);
                    },
                    XattrValue::Data(d) => {
                        if size == 0 {
                            return Ok(XattrReply::Size(#[verifier::truncate] (d.len() as u32)));
                        }
                        if d.len() > size as usize {
                            return Err(Errno::Erange);
                        }
                        let out = vstd::slice::slice_to_vec(d.as_slice());
                        return Ok(XattrReply::Data(out));
                    },
                }
            }
            proof {
                assert(es@.skip(i as int).skip(1) =~= es@.skip(i as int + 1));
            }
            i = i + 1;
        }
        proof {
            assert(es@.skip(n as int) =~= Seq::<(String, XattrValue)>::empty());
        }
        Err(Errno::Enodata)
    }
}

} // verus!

verus! {

/// The bytes a `listxattr` answer carries: every attribute name's
/// UTF-8 bytes, each followed by a NUL byte.
pub open spec fn xattr_name_blob(entries: Seq<(String, XattrValue)>) -> Seq<u8>
    decreases entries.len(),
{
    if entries.len() == 0 {
        Seq::empty()
    } else {
        vstd::utf8::encode_utf8(entries[0].0@) + seq![0u8] + xattr_name_blob(entries.skip(1))
    }
}

proof fn lemma_xattr_name_blob_snoc(entries: Seq<(String, XattrValue)>, i: int)
    requires
        0 <= i < entries.len(),
    ensures
        xattr_name_blob(entries.take(i + 1)) == xattr_name_blob(entries.take(i)) + (
        vstd::utf8::encode_utf8(entries[i].0@) + seq![0u8]),
    decreases i,
{
    if i == 0 {
        assert(entries.take(1)[0] == entries[0]);
        assert(entries.take(1).skip(1) =~= Seq::<(String, XattrValue)>::empty());
        assert(xattr_name_blob(Seq::<(String, XattrValue)>::empty()) == Seq::<u8>::empty());
        assert(xattr_name_blob(entries.take(1)) == vstd::utf8::encode_utf8(entries.take(1)[0].0@)
            + seq![0u8] + xattr_name_blob(entries.take(1).skip(1)));
        assert(xattr_name_blob(entries.take(1)) =~= vstd::utf8::encode_utf8(entries[0].0@)
            + seq![0u8]);
        assert(xattr_name_blob(entries.take(0)) =~= Seq::<u8>::empty());
        assert(xattr_name_blob(entries.take(0)) + (vstd::utf8::encode_utf8(entries[0].0@)
            + seq![0u8]) =~= vstd::utf8::encode_utf8(entries[0].0@) + seq![0u8]);
    } else {
        lemma_xattr_name_blob_snoc(entries.skip(1), i - 1);
        assert(entries.take(i + 1).skip(1) =~= entries.skip(1).take(i));
        assert(entries.take(i).skip(1) =~= entries.skip(1).take(i - 1));
        assert(entries.take(i + 1)[0] == entries[0] && entries.take(i)[0] == entries[0]);
        assert(entries.skip(1)[i - 1] == entries[i]);
        let head = vstd::utf8::encode_utf8(entries[0].0@) + seq![0u8];
        assert(xattr_name_blob(entries.take(i + 1)) == head + xattr_name_blob(
            entries.skip(1).take(i),
        ));
        assert(head + (xattr_name_blob(entries.skip(1).take(i - 1)) + (vstd::utf8::encode_utf8(
            entries[i].0@,
        ) + seq![0u8])) =~= (head + xattr_name_blob(entries.skip(1).take(i - 1))) + (
        vstd::utf8::encode_utf8(entries[i].0@) + seq![0u8]));
    }
}

impl MBFile {
    /// Answers a `listxattr` request: the names of all extended
    /// attributes, NUL-terminated and concatenated.  A record without
    /// attributes lists nothing; a payload that is no dictionary is
    /// `Eio`; a list longer than a 32-bit count can carry is `E2big`;
    /// a zero-size probe gets the length, a buffer too small `Erange`.
    #[verifier::loop_isolation(false)]
    pub fn listxattr(&self, size: u32) -> (r: Result<XattrReply, Errno>)
        ensures
            match r {
                Ok(XattrReply::Size(n)) => {
                    &&& size == 0
                    &&& (match self.extended_attributes {
                        Option::None => n == 0,
                        Option::Some(XattrPayload::Dict(es)) => n == xattr_name_blob(es@).len()
                            && xattr_name_blob(es@).len() < u32::MAX,
                        Option::Some(XattrPayload::NotDict) => false,
                    })
                },
                Ok(XattrReply::Data(b)) => {
                    &&& size != 0
                    &&& (match self.extended_attributes {
                        Option::None => b@.len() == 0,
                        Option::Some(XattrPayload::Dict(es)) => b@ == xattr_name_blob(es@)
                            && b@.len() <= size,
                        Option::Some(XattrPayload::NotDict) => false,
                    })
                },
                Err(Errno::Eio) => self.extended_attributes matches Some(XattrPayload::NotDict),
                Err(Errno::E2big) => self.extended_attributes matches Some(XattrPayload::Dict(es))
                    && xattr_name_blob(es@).len() >= u32::MAX,
                Err(Errno::Erange) => {
                    &&& size != 0
                    &&& self.extended_attributes matches Some(XattrPayload::Dict(es))
                    &&& xattr_name_blob(es@).len() < u32::MAX
                    &&& xattr_name_blob(es@).len() > size
                },
                Err(_) => false,
            },
    {
        let es = match &self.extended_attributes {
            None => {
                if size == 0 {
                    return Ok(XattrReply::Size(0));
                }
                return Ok(XattrReply::Data(Vec::new()));
            },
            Some(XattrPayload::NotDict) => {
                return Err(Errno::Eio);
            },
            Some(XattrPayload::Dict(es)) => es,
        };
        let n = es.len();

        // First pass: the total length, stopping as soon as it can no
        // longer fit a 32-bit count.
        let mut total: u64 = 0;
        let mut i: usize = 0;
        proof {
            assert(xattr_name_blob(es@.take(0)) =~= Seq::<u8>::empty());
        }
        while i < n
            invariant
                i <= n,
                n == es@.len(),
                total == xattr_name_blob(es@.take(i as int)).len(),
                total < 0xFFFF_FFFF,
            decreases n - i,
        {
            let klen = es[i].0.as_str().as_bytes_vec().len();
            proof {
                lemma_xattr_name_blob_snoc(es@, i as int);
            }
            if klen >= 0xFFFF_FFFFusize || (klen as u64) + 1 >= 0xFFFF_FFFFu64 - total {
                proof {
                    lemma_xattr_name_blob_grows(es@, i as int + 1);
                }
                return Err(Errno::E2big);
            }
            total = total + klen as u64 + 1;
            i = i + 1;
        }
        proof {
            assert(es@.take(n as int) =~= es@);
        }
        if size == 0 {
            return Ok(XattrReply::Size(total as u32));
        }
        if total > size as u64 {
            return Err(Errno::Erange);
        }

        // Second pass: the names themselves.
        let mut out: Vec<u8> = Vec::new();
        let mut i: usize = 0;
        while i < n
            invariant
                i <= n,
                n == es@.len(),
                out@ == xattr_name_blob(es@.take(i as int)),
            decreases n - i,
        {
            let kb = es[i].0.as_str().as_bytes_vec();
            let mut j: usize = 0;
            let ghost pre = out@;
            while j < kb.len()
                invariant
                    j <= kb@.len(),
                    out@ == pre + kb@.take(j as int),
                decreases kb@.len() - j,
            {
                out.push(kb[j]);
                proof {
                    assert(pre + kb@.take(j as int) + seq![kb@[j as int]] =~= pre + kb@.take(
                        j as int + 1,
                    ));
                }
                j = j + 1;
            }
            out.push(0u8);
            proof {
                lemma_xattr_name_blob_snoc(es@, i as int);
                assert(kb@.take(kb@.len() as int) =~= kb@);
                assert(pre + kb@ + seq![0u8] =~= pre + (kb@ + seq![0u8]));
                assert(kb@ + seq![0u8] =~= vstd::utf8::encode_utf8(es@[i as int].0@) + seq![0u8]);
                assert(out@ =~= xattr_name_blob(es@.take(i as int + 1)));
            }
            i = i + 1;
        }
        proof {
            assert(es@.take(n as int) =~= es@);
        }
        Ok(XattrReply::Data(out))
    }
}

/// A longer prefix of the attribute list never shrinks the name blob.
proof fn lemma_xattr_name_blob_grows(entries: Seq<(String, XattrValue)>, i: int)
    requires
        0 <= i <= entries.len(),
    ensures
        xattr_name_blob(entries).len() >= xattr_name_blob(entries.take(i)).len(),
    decreases entries.len() - i,
{
    if i < entries.len() {
        lemma_xattr_name_blob_snoc(entries, i);
        lemma_xattr_name_blob_grows(entries, i + 1);
    } else {
        assert(entries.take(i) =~= entries);
    }
}

} // verus!
