//! The BackupKeyBag TLV format: a sequence of records, each a 4-byte
//! ASCII tag, a 4-byte big-endian length and an exact payload.  A fixed
//! header of ten records is followed by zero or more class groups of
//! five records each.  Parsing and serialising are both verified, and
//! parsing inverts serialising.

use vstd::prelude::*;
use vstd::slice::{slice_subrange, slice_to_vec};

verus! {

/// The record tags of the keybag format, header tags first, then the
/// tags that recur in each class group.
#[derive(Clone, Copy, Debug, PartialEq, Eq, Structural)]
pub enum Tag {
    Vers,
    Type,
    Uuid,
    Hmck,
    Wrap,
    Salt,
    Iter,
    Dpwt,
    Dpic,
    Dpsl,
    Clas,
    Ktyp,
    Wpky,
}

/// The 4 ASCII bytes of a tag read as a big-endian integer.
pub open spec fn tag_code(t: Tag) -> u32 {
    match t {
        Tag::Vers => 0x56455253,
        Tag::Type => 0x54595045,
        Tag::Uuid => 0x55554944,
        Tag::Hmck => 0x484D434B,
        Tag::Wrap => 0x57524150,
        Tag::Salt => 0x53414C54,
        Tag::Iter => 0x49544552,
        Tag::Dpwt => 0x44505754,
        Tag::Dpic => 0x44504943,
        Tag::Dpsl => 0x4450534C,
        Tag::Clas => 0x434C4153,
        Tag::Ktyp => 0x4B545950,
        Tag::Wpky => 0x57504B59,
    }
}

impl Tag {
    /// The tag's 4 ASCII bytes as a big-endian integer.
    pub fn code(self) -> (r: u32)
        ensures
            r == tag_code(self),
    {
        match self {
            Tag::Vers => 0x56455253,
            Tag::Type => 0x54595045,
            Tag::Uuid => 0x55554944,
            Tag::Hmck => 0x484D434B,
            Tag::Wrap => 0x57524150,
            Tag::Salt => 0x53414C54,
            Tag::Iter => 0x49544552,
            Tag::Dpwt => 0x44505754,
            Tag::Dpic => 0x44504943,
            Tag::Dpsl => 0x4450534C,
            Tag::Clas => 0x434C4153,
            Tag::Ktyp => 0x4B545950,
            Tag::Wpky => 0x57504B59,
        }
    }
}

/// Why a keybag failed to parse: the buffer ended inside a record, a
/// record carried the wrong tag, or a fixed-size payload had the wrong
/// length.
#[derive(Clone, Copy, Debug, PartialEq, Eq, Structural)]
pub enum KeyBagError {
    Truncated,
    Expected(Tag),
    BadLength(Tag),
}

/// One class-key group of the keybag.
#[derive(Debug)]
pub struct KeyBagClass {
    pub uuid: [u8; 16],
    pub clas: u32,
    pub wrap: u32,
    pub ktyp: u32,
    pub wpky: Vec<u8>,
}

/// The decoded keybag: header fields, then the class groups in order.
#[derive(Debug)]
pub struct KeyBag {
    pub vers: u32,
    pub ktype: u32,
    pub uuid: [u8; 16],
    pub hmck: Vec<u8>,
    pub wrap: u32,
    pub salt: Vec<u8>,
    pub iter: u32,
    pub dpwt: u32,
    pub dpic: u32,
    pub dpsl: Vec<u8>,
    pub others: Vec<KeyBagClass>,
}

/// The mathematical image of a class group.
pub struct KeyBagClassView {
    pub uuid: Seq<u8>,
    pub clas: u32,
    pub wrap: u32,
    pub ktyp: u32,
    pub wpky: Seq<u8>,
}

/// The mathematical image of a keybag.
pub struct KeyBagView {
    pub vers: u32,
    pub ktype: u32,
    pub uuid: Seq<u8>,
    pub hmck: Seq<u8>,
    pub wrap: u32,
    pub salt: Seq<u8>,
    pub iter: u32,
    pub dpwt: u32,
    pub dpic: u32,
    pub dpsl: Seq<u8>,
    pub others: Seq<KeyBagClassView>,
}

impl View for KeyBagClass {
    type V = KeyBagClassView;

    open spec fn view(&self) -> KeyBagClassView {
        KeyBagClassView {
            uuid: self.uuid@,
            clas: self.clas,
            wrap: self.wrap,
            ktyp: self.ktyp,
            wpky: self.wpky@,
        }
    }
}

/// The views of a sequence of class groups.
pub open spec fn class_views(s: Seq<KeyBagClass>) -> Seq<KeyBagClassView> {
    s.map_values(|c: KeyBagClass| c@)
}

impl View for KeyBag {
    type V = KeyBagView;

    open spec fn view(&self) -> KeyBagView {
        KeyBagView {
            vers: self.vers,
            ktype: self.ktype,
            uuid: self.uuid@,
            hmck: self.hmck@,
            wrap: self.wrap,
            salt: self.salt@,
            iter: self.iter,
            dpwt: self.dpwt,
            dpic: self.dpic,
            dpsl: self.dpsl@,
            others: class_views(self.others@),
        }
    }
}

impl KeyBagClassView {
    /// The group can be written back: the UUID is 16 bytes and the
    /// wrapped key fits a length field.
    pub open spec fn wf(self) -> bool {
        self.uuid.len() == 16 && self.wpky.len() <= u32::MAX
    }
}

impl KeyBagView {
    /// The keybag can be written back: the UUIDs are 16 bytes and every
    /// variable payload fits a length field.
    pub open spec fn wf(self) -> bool {
        &&& self.uuid.len() == 16
        &&& self.hmck.len() <= u32::MAX
        &&& self.salt.len() <= u32::MAX
        &&& self.dpsl.len() <= u32::MAX
        &&& forall|i: int| 0 <= i < self.others.len() ==> (#[trigger] self.others[i]).wf()
    }
}

/// A big-endian u32 from 4 bytes.
#[verifier::opaque]
pub open spec fn be_u32_of(b: Seq<u8>) -> u32 {
    (b[0] as nat * 0x1000000 + b[1] as nat * 0x10000 + b[2] as nat * 0x100 + b[3] as nat) as u32
}

/// The 4 big-endian bytes of a u32.
#[verifier::opaque]
pub open spec fn be_bytes_of(v: u32) -> Seq<u8> {
    seq![
        (v as nat / 0x1000000) as u8,
        ((v as nat / 0x10000) % 0x100) as u8,
        ((v as nat / 0x100) % 0x100) as u8,
        (v as nat % 0x100) as u8,
    ]
}

/// A u32 always serialises to exactly 4 bytes.
pub broadcast proof fn lemma_be_bytes_len(v: u32)
    ensures
        (#[trigger] be_bytes_of(v)).len() == 4,
{
    reveal(be_bytes_of);
}

proof fn lemma_be_roundtrip(v: u32)
    ensures
        be_u32_of(be_bytes_of(v)) == v,
{
    reveal(be_u32_of);
    reveal(be_bytes_of);
    let x = v as int;
    vstd::arithmetic::div_mod::lemma_fundamental_div_mod(x, 0x100);
    vstd::arithmetic::div_mod::lemma_fundamental_div_mod(x / 0x100, 0x100);
    vstd::arithmetic::div_mod::lemma_fundamental_div_mod(x / 0x10000, 0x100);
    vstd::arithmetic::div_mod::lemma_fundamental_div_mod(x, 0x1000000);
    vstd::arithmetic::div_mod::lemma_div_denominator(x, 0x100, 0x100);
    vstd::arithmetic::div_mod::lemma_div_denominator(x, 0x10000, 0x100);
    assert(x / 0x100 / 0x100 == x / 0x10000);
    assert(x / 0x10000 / 0x100 == x / 0x1000000);
}

/// One TLV record: tag, big-endian length, payload of exactly that
/// length.
pub open spec fn tlv(tag: u32, payload: Seq<u8>) -> Seq<u8> {
    be_bytes_of(tag) + be_bytes_of(payload.len() as u32) + payload
}

/// Splits the leading TLV record off `s`: its tag, its payload, and
/// what follows.  `None` when `s` ends inside the record.
pub open spec fn tlv_split(s: Seq<u8>) -> Option<(u32, Seq<u8>, Seq<u8>)> {
    if s.len() < 8 {
        None
    } else {
        let tag = be_u32_of(s.take(4));
        let len = be_u32_of(s.subrange(4, 8)) as int;
        if 8 + len <= s.len() {
            Some((tag, s.subrange(8, 8 + len), s.skip(8 + len)))
        } else {
            None
        }
    }
}

/// Reads a record that must carry tag `t` and a 4-byte integer payload.
pub open spec fn field_u32(s: Seq<u8>, t: Tag) -> Result<(u32, Seq<u8>), KeyBagError> {
    match tlv_split(s) {
        Option::None => Result::Err(KeyBagError::Truncated),
        Option::Some((tag, pl, rest)) => {
            if tag != tag_code(t) {
                Result::Err(KeyBagError::Expected(t))
            } else if pl.len() != 4 {
                Result::Err(KeyBagError::BadLength(t))
            } else {
                Result::Ok((be_u32_of(pl), rest))
            }
        },
    }
}

/// Reads a record that must carry tag `t`; any payload length.
pub open spec fn field_bytes(s: Seq<u8>, t: Tag) -> Result<(Seq<u8>, Seq<u8>), KeyBagError> {
    match tlv_split(s) {
        Option::None => Result::Err(KeyBagError::Truncated),
        Option::Some((tag, pl, rest)) => {
            if tag != tag_code(t) {
                Result::Err(KeyBagError::Expected(t))
            } else {
                Result::Ok((pl, rest))
            }
        },
    }
}

/// Reads a UUID record: tag `t` with a 16-byte payload.
pub open spec fn field_uuid(s: Seq<u8>, t: Tag) -> Result<(Seq<u8>, Seq<u8>), KeyBagError> {
    match field_bytes(s, t) {
        Result::Err(e) => Result::Err(e),
        Result::Ok((pl, rest)) => {
            if pl.len() != 16 {
                Result::Err(KeyBagError::BadLength(t))
            } else {
                Result::Ok((pl, rest))
            }
        },
    }
}

/// Splits one class group (UUID, CLAS, WRAP, KTYP, WPKY) off `s`.
pub open spec fn group_split(s: Seq<u8>) -> Result<(KeyBagClassView, Seq<u8>), KeyBagError> {
    match field_uuid(s, Tag::Uuid) {
        Result::Err(e) => Result::Err(e),
        Result::Ok((uuid, s1)) => match field_u32(s1, Tag::Clas) {
            Result::Err(e) => Result::Err(e),
            Result::Ok((clas, s2)) => match field_u32(s2, Tag::Wrap) {
                Result::Err(e) => Result::Err(e),
                Result::Ok((wrap, s3)) => match field_u32(s3, Tag::Ktyp) {
                    Result::Err(e) => Result::Err(e),
                    Result::Ok((ktyp, s4)) => match field_bytes(s4, Tag::Wpky) {
                        Result::Err(e) => Result::Err(e),
                        Result::Ok((wpky, s5)) => Result::Ok(
                            (KeyBagClassView { uuid, clas, wrap, ktyp, wpky }, s5),
                        ),
                    },
                },
            },
        },
    }
}

/// Parses class groups until the buffer is exhausted; ending anywhere
/// but exactly at a group boundary is an error.
pub open spec fn parse_classes(s: Seq<u8>) -> Result<Seq<KeyBagClassView>, KeyBagError>
    decreases s.len(),
{
    if s.len() == 0 {
        Result::Ok(Seq::empty())
    } else {
        match group_split(s) {
            Result::Err(e) => Result::Err(e),
            Result::Ok((c, rest)) => {
                if rest.len() < s.len() {
                    match parse_classes(rest) {
                        Result::Err(e) => Result::Err(e),
                        Result::Ok(cs) => Result::Ok(seq![c] + cs),
                    }
                } else {
                    // A group always consumes bytes; this case cannot
                    // arise and is here only for the termination bound.
                    Result::Err(KeyBagError::Truncated)
                }
            },
        }
    }
}

/// Parses a whole keybag: the ten fixed header records in order, then
/// the class groups.
pub open spec fn parse_keybag_spec(s: Seq<u8>) -> Result<KeyBagView, KeyBagError> {
    match field_u32(s, Tag::Vers) {
        Result::Err(e) => Result::Err(e),
        Result::Ok((vers, s1)) => match field_u32(s1, Tag::Type) {
            Result::Err(e) => Result::Err(e),
            Result::Ok((ktype, s2)) => match field_uuid(s2, Tag::Uuid) {
                Result::Err(e) => Result::Err(e),
                Result::Ok((uuid, s3)) => match field_bytes(s3, Tag::Hmck) {
                    Result::Err(e) => Result::Err(e),
                    Result::Ok((hmck, s4)) => match field_u32(s4, Tag::Wrap) {
                        Result::Err(e) => Result::Err(e),
                        Result::Ok((wrap, s5)) => match field_bytes(s5, Tag::Salt) {
                            Result::Err(e) => Result::Err(e),
                            Result::Ok((salt, s6)) => match field_u32(s6, Tag::Iter) {
                                Result::Err(e) => Result::Err(e),
                                Result::Ok((iter, s7)) => match field_u32(s7, Tag::Dpwt) {
                                    Result::Err(e) => Result::Err(e),
                                    Result::Ok((dpwt, s8)) => match field_u32(s8, Tag::Dpic) {
                                        Result::Err(e) => Result::Err(e),
                                        Result::Ok((dpic, s9)) => match field_bytes(
                                            s9,
                                            Tag::Dpsl,
                                        ) {
                                            Result::Err(e) => Result::Err(e),
                                            Result::Ok((dpsl, s10)) => match parse_classes(s10) {
                                                Result::Err(e) => Result::Err(e),
                                                Result::Ok(others) => Result::Ok(
                                                    KeyBagView {
                                                        vers,
                                                        ktype,
                                                        uuid,
                                                        hmck,
                                                        wrap,
                                                        salt,
                                                        iter,
                                                        dpwt,
                                                        dpic,
                                                        dpsl,
                                                        others,
                                                    },
                                                ),
                                            },
                                        },
                                    },
                                },
                            },
                        },
                    },
                },
            },
        },
    }
}

/// The serialised form of one class group.
pub open spec fn ser_class(c: KeyBagClassView) -> Seq<u8> {
    tlv(tag_code(Tag::Uuid), c.uuid) + (tlv(tag_code(Tag::Clas), be_bytes_of(c.clas)) + (tlv(
        tag_code(Tag::Wrap),
        be_bytes_of(c.wrap),
    ) + (tlv(tag_code(Tag::Ktyp), be_bytes_of(c.ktyp)) + tlv(tag_code(Tag::Wpky), c.wpky))))
}

/// The serialised form of a sequence of class groups.
pub open spec fn ser_classes(cs: Seq<KeyBagClassView>) -> Seq<u8>
    decreases cs.len(),
{
    if cs.len() == 0 {
        Seq::empty()
    } else {
        ser_class(cs[0]) + ser_classes(cs.skip(1))
    }
}

/// The serialised form of a keybag.
pub open spec fn ser_keybag_spec(kb: KeyBagView) -> Seq<u8> {
    tlv(tag_code(Tag::Vers), be_bytes_of(kb.vers)) + (tlv(
        tag_code(Tag::Type),
        be_bytes_of(kb.ktype),
    ) + (tlv(tag_code(Tag::Uuid), kb.uuid) + (tlv(tag_code(Tag::Hmck), kb.hmck) + (tlv(
        tag_code(Tag::Wrap),
        be_bytes_of(kb.wrap),
    ) + (tlv(tag_code(Tag::Salt), kb.salt) + (tlv(tag_code(Tag::Iter), be_bytes_of(kb.iter)) + (tlv(
        tag_code(Tag::Dpwt),
        be_bytes_of(kb.dpwt),
    ) + (tlv(tag_code(Tag::Dpic), be_bytes_of(kb.dpic)) + (tlv(tag_code(Tag::Dpsl), kb.dpsl)
        + ser_classes(kb.others))))))))))
}

proof fn lemma_tlv_split(tag: u32, pl: Seq<u8>, rest: Seq<u8>)
    requires
        pl.len() <= u32::MAX,
    ensures
        tlv_split(tlv(tag, pl) + rest) == Some((tag, pl, rest)),
{
    broadcast use lemma_be_bytes_len;

    let s = tlv(tag, pl) + rest;
    assert(s.len() == 8 + pl.len() + rest.len());
    assert(s.take(4) =~= be_bytes_of(tag));
    assert(s.subrange(4, 8) =~= be_bytes_of(pl.len() as u32));
    lemma_be_roundtrip(tag);
    lemma_be_roundtrip(pl.len() as u32);
    let len = be_u32_of(s.subrange(4, 8)) as int;
    assert(len == pl.len());
    assert(s.subrange(8, 8 + len) =~= pl);
    assert(s.skip(8 + len) =~= rest);
}

proof fn lemma_field_u32_roundtrip(t: Tag, v: u32, rest: Seq<u8>)
    ensures
        field_u32(tlv(tag_code(t), be_bytes_of(v)) + rest, t) == Result::<
            (u32, Seq<u8>),
            KeyBagError,
        >::Ok((v, rest)),
{
    broadcast use lemma_be_bytes_len;

    lemma_tlv_split(tag_code(t), be_bytes_of(v), rest);
    lemma_be_roundtrip(v);
}

proof fn lemma_field_bytes_roundtrip(t: Tag, pl: Seq<u8>, rest: Seq<u8>)
    requires
        pl.len() <= u32::MAX,
    ensures
        field_bytes(tlv(tag_code(t), pl) + rest, t) == Result::<
            (Seq<u8>, Seq<u8>),
            KeyBagError,
        >::Ok((pl, rest)),
{
    lemma_tlv_split(tag_code(t), pl, rest);
}

proof fn lemma_group_roundtrip(c: KeyBagClassView, rest: Seq<u8>)
    requires
        c.wf(),
    ensures
        group_split(ser_class(c) + rest) == Result::<
            (KeyBagClassView, Seq<u8>),
            KeyBagError,
        >::Ok((c, rest)),
        (ser_class(c) + rest).len() > rest.len(),
{
    broadcast use lemma_be_bytes_len;

    let s5 = tlv(tag_code(Tag::Wpky), c.wpky);
    let s4 = tlv(tag_code(Tag::Ktyp), be_bytes_of(c.ktyp)) + s5;
    let s3 = tlv(tag_code(Tag::Wrap), be_bytes_of(c.wrap)) + (tlv(
        tag_code(Tag::Ktyp),
        be_bytes_of(c.ktyp),
    ) + s5);
    assert(ser_class(c) + rest =~= tlv(tag_code(Tag::Uuid), c.uuid) + ((tlv(
        tag_code(Tag::Clas),
        be_bytes_of(c.clas),
    ) + (tlv(tag_code(Tag::Wrap), be_bytes_of(c.wrap)) + (tlv(
        tag_code(Tag::Ktyp),
        be_bytes_of(c.ktyp),
    ) + (s5 + rest))))));
    lemma_field_bytes_roundtrip(Tag::Uuid, c.uuid, tlv(tag_code(Tag::Clas), be_bytes_of(c.clas))
        + (tlv(tag_code(Tag::Wrap), be_bytes_of(c.wrap)) + (tlv(
        tag_code(Tag::Ktyp),
        be_bytes_of(c.ktyp),
    ) + (s5 + rest))));
    lemma_field_u32_roundtrip(Tag::Clas, c.clas, tlv(tag_code(Tag::Wrap), be_bytes_of(c.wrap)) + (
    tlv(tag_code(Tag::Ktyp), be_bytes_of(c.ktyp)) + (s5 + rest)));
    lemma_field_u32_roundtrip(Tag::Wrap, c.wrap, tlv(tag_code(Tag::Ktyp), be_bytes_of(c.ktyp)) + (
    s5 + rest));
    lemma_field_u32_roundtrip(Tag::Ktyp, c.ktyp, s5 + rest);
    lemma_field_bytes_roundtrip(Tag::Wpky, c.wpky, rest);
}

#[verifier::rlimit(100)]
proof fn lemma_classes_roundtrip(cs: Seq<KeyBagClassView>)
    requires
        forall|i: int| 0 <= i < cs.len() ==> (#[trigger] cs[i]).wf(),
    ensures
        parse_classes(ser_classes(cs)) == Result::<Seq<KeyBagClassView>, KeyBagError>::Ok(cs),
    decreases cs.len(),
{
    broadcast use lemma_be_bytes_len;

    if cs.len() == 0 {
        assert(ser_classes(cs).len() == 0);
        assert(cs =~= Seq::<KeyBagClassView>::empty());
    } else {
        let rest = ser_classes(cs.skip(1));
        lemma_group_roundtrip(cs[0], rest);
        lemma_classes_roundtrip(cs.skip(1));
        let s = ser_classes(cs);
        assert(s == ser_class(cs[0]) + rest);
        assert(s.len() > 0) by {
            assert(s.len() > rest.len());
        }
        assert(group_split(s) == Result::<(KeyBagClassView, Seq<u8>), KeyBagError>::Ok(
            (cs[0], rest),
        ));
        assert(seq![cs[0]] + cs.skip(1) =~= cs);
    }
}

/// Parsing inverts serialising: a well-formed keybag written out and
/// read back yields exactly the keybag, with no error.
pub proof fn lemma_keybag_roundtrip(kb: KeyBagView)
    requires
        kb.wf(),
    ensures
        parse_keybag_spec(ser_keybag_spec(kb)) == Result::<KeyBagView, KeyBagError>::Ok(kb),
{
    broadcast use lemma_be_bytes_len;

    let s10 = ser_classes(kb.others);
    let s9 = tlv(tag_code(Tag::Dpsl), kb.dpsl) + s10;
    let s8 = tlv(tag_code(Tag::Dpic), be_bytes_of(kb.dpic)) + s9;
    let s7 = tlv(tag_code(Tag::Dpwt), be_bytes_of(kb.dpwt)) + s8;
    let s6 = tlv(tag_code(Tag::Iter), be_bytes_of(kb.iter)) + s7;
    let s5 = tlv(tag_code(Tag::Salt), kb.salt) + s6;
    let s4 = tlv(tag_code(Tag::Wrap), be_bytes_of(kb.wrap)) + s5;
    let s3 = tlv(tag_code(Tag::Hmck), kb.hmck) + s4;
    let s2 = tlv(tag_code(Tag::Uuid), kb.uuid) + s3;
    let s1 = tlv(tag_code(Tag::Type), be_bytes_of(kb.ktype)) + s2;
    let s0 = tlv(tag_code(Tag::Vers), be_bytes_of(kb.vers)) + s1;
    assert(ser_keybag_spec(kb) == s0);
    lemma_field_u32_roundtrip(Tag::Vers, kb.vers, s1);
    lemma_field_u32_roundtrip(Tag::Type, kb.ktype, s2);
    lemma_field_bytes_roundtrip(Tag::Uuid, kb.uuid, s3);
    lemma_field_bytes_roundtrip(Tag::Hmck, kb.hmck, s4);
    lemma_field_u32_roundtrip(Tag::Wrap, kb.wrap, s5);
    lemma_field_bytes_roundtrip(Tag::Salt, kb.salt, s6);
    lemma_field_u32_roundtrip(Tag::Iter, kb.iter, s7);
    lemma_field_u32_roundtrip(Tag::Dpwt, kb.dpwt, s8);
    lemma_field_u32_roundtrip(Tag::Dpic, kb.dpic, s9);
    lemma_field_bytes_roundtrip(Tag::Dpsl, kb.dpsl, s10);
    lemma_classes_roundtrip(kb.others);
}

/// Reads 4 bytes at `pos` as a big-endian integer.
fn read_be_u32(data: &[u8], pos: usize) -> (r: u32)
    requires
        pos + 4 <= data@.len(),
    ensures
        r == be_u32_of(data@.subrange(pos as int, pos as int + 4)),
{
    let n = data.len();
    let b0 = data[pos] as u32;
    let b1 = data[pos + 1] as u32;
    let b2 = data[pos + 2] as u32;
    let b3 = data[pos + 3] as u32;
    let r = b0 * 0x1000000 + b1 * 0x10000 + b2 * 0x100 + b3;
    proof {
        reveal(be_u32_of);
        let s = data@.subrange(pos as int, pos as int + 4);
        assert(s[0] == data@[pos as int] && s[1] == data@[pos as int + 1]);
        assert(s[2] == data@[pos as int + 2] && s[3] == data@[pos as int + 3]);
    }
    r
}

/// Splits the TLV record at `pos` of `data`: its tag, where its payload
/// starts, and where the next record starts.
fn read_tlv(data: &[u8], pos: usize) -> (r: Option<(u32, usize, usize)>)
    requires
        pos <= data@.len(),
    ensures
        match r {
            Some(t) => {
                &&& tlv_split(data@.skip(pos as int)) == Some(
                    (t.0, data@.subrange(t.1 as int, t.2 as int), data@.skip(t.2 as int)),
                )
                &&& pos + 8 == t.1 <= t.2 <= data@.len()
            },
            None => tlv_split(data@.skip(pos as int)) is None,
        },
{
    let n = data.len();
    let ghost s = data@.skip(pos as int);
    if n - pos < 8 {
        return None;
    }
    let tag = read_be_u32(data, pos);
    let len32 = read_be_u32(data, pos + 4);
    proof {
        assert(s.take(4) =~= data@.subrange(pos as int, pos as int + 4));
        assert(s.subrange(4, 8) =~= data@.subrange(pos as int + 4, pos as int + 8));
    }
    let len = len32 as usize;
    if len > n - (pos + 8) {
        return None;
    }
    let next = pos + 8 + len;
    proof {
        assert(s.subrange(8, 8 + len as int) =~= data@.subrange(pos as int + 8, next as int));
        assert(s.skip(8 + len as int) =~= data@.skip(next as int));
    }
    Some((tag, pos + 8, next))
}

/// Reads a record that must carry tag `t` and a 4-byte integer payload.
fn read_field_u32(data: &[u8], pos: usize, t: Tag) -> (r: Result<(u32, usize), KeyBagError>)
    requires
        pos <= data@.len(),
    ensures
        match r {
            Ok(v) => {
                &&& field_u32(data@.skip(pos as int), t) == Result::<
                    (u32, Seq<u8>),
                    KeyBagError,
                >::Ok((v.0, data@.skip(v.1 as int)))
                &&& pos < v.1 <= data@.len()
            },
            Err(e) => field_u32(data@.skip(pos as int), t) == Result::<
                (u32, Seq<u8>),
                KeyBagError,
            >::Err(e),
        },
{
    match read_tlv(data, pos) {
        None => Err(KeyBagError::Truncated),
        Some((tag, pl_start, next)) => {
            if tag != t.code() {
                Err(KeyBagError::Expected(t))
            } else if next - pl_start != 4 {
                Err(KeyBagError::BadLength(t))
            } else {
                let v = read_be_u32(data, pl_start);
                Ok((v, next))
            }
        },
    }
}

/// Reads a record that must carry tag `t`; the payload is copied out.
fn read_field_bytes(data: &[u8], pos: usize, t: Tag) -> (r: Result<(Vec<u8>, usize), KeyBagError>)
    requires
        pos <= data@.len(),
    ensures
        match r {
            Ok(v) => {
                &&& field_bytes(data@.skip(pos as int), t) == Result::<
                    (Seq<u8>, Seq<u8>),
                    KeyBagError,
                >::Ok((v.0@, data@.skip(v.1 as int)))
                &&& pos < v.1 <= data@.len()
                &&& v.0@.len() <= u32::MAX
            },
            Err(e) => field_bytes(data@.skip(pos as int), t) == Result::<
                (Seq<u8>, Seq<u8>),
                KeyBagError,
            >::Err(e),
        },
{
    match read_tlv(data, pos) {
        None => Err(KeyBagError::Truncated),
        Some((tag, pl_start, next)) => {
            if tag != t.code() {
                Err(KeyBagError::Expected(t))
            } else {
                let pl = slice_to_vec(slice_subrange(data, pl_start, next));
                Ok((pl, next))
            }
        },
    }
}

/// Reads a record that must carry tag `t` and a 16-byte payload.
#[verifier::loop_isolation(false)]
fn read_field_uuid(data: &[u8], pos: usize, t: Tag) -> (r: Result<([u8; 16], usize), KeyBagError>)
    requires
        pos <= data@.len(),
    ensures
        match r {
            Ok(v) => {
                &&& field_uuid(data@.skip(pos as int), t) == Result::<
                    (Seq<u8>, Seq<u8>),
                    KeyBagError,
                >::Ok((v.0@, data@.skip(v.1 as int)))
                &&& pos < v.1 <= data@.len()
            },
            Err(e) => field_uuid(data@.skip(pos as int), t) == Result::<
                (Seq<u8>, Seq<u8>),
                KeyBagError,
            >::Err(e),
        },
{
    match read_field_bytes(data, pos, t) {
        Err(e) => Err(e),
        Ok((pl, next)) => {
            if pl.len() != 16 {
                Err(KeyBagError::BadLength(t))
            } else {
                let mut u: [u8; 16] = [0u8; 16];
                let mut j: usize = 0;
                while j < 16
                    invariant
                        j <= 16,
                        forall|k: int| 0 <= k < j ==> u@[k] == pl@[k],
                    decreases 16 - j,
                {
                    u[j] = pl[j];
                    j = j + 1;
                }
                proof {
                    assert(u@ =~= pl@);
                }
                Ok((u, next))
            }
        },
    }
}

/// Parses the serialised keybag: the ten fixed header records in order,
/// then zero or more class groups, ending exactly at the end of the
/// buffer.  Succeeds with the decoded keybag exactly when
/// `parse_keybag_spec` does, and returns the same error otherwise.
#[verifier::loop_isolation(false)]
#[verifier::rlimit(100)]
pub fn parse_keybag(data: &[u8]) -> (r: Result<KeyBag, KeyBagError>)
    ensures
        r matches Ok(kb) ==> parse_keybag_spec(data@) == Result::<KeyBagView, KeyBagError>::Ok(kb@)
            && kb@.wf(),
        r matches Err(e) ==> parse_keybag_spec(data@) == Result::<KeyBagView, KeyBagError>::Err(e),
{
    proof {
        assert(data@.skip(0) =~= data@);
    }
    let (vers, p1) = match read_field_u32(data, 0, Tag::Vers) {
        Ok(x) => x,
        Err(e) => { return Err(e) },
    };
    let (ktype, p2) = match read_field_u32(data, p1, Tag::Type) {
        Ok(x) => x,
        Err(e) => { return Err(e) },
    };
    let (uuid, p3) = match read_field_uuid(data, p2, Tag::Uuid) {
        Ok(x) => x,
        Err(e) => { return Err(e) },
    };
    let (hmck, p4) = match read_field_bytes(data, p3, Tag::Hmck) {
        Ok(x) => x,
        Err(e) => { return Err(e) },
    };
    let (wrap, p5) = match read_field_u32(data, p4, Tag::Wrap) {
        Ok(x) => x,
        Err(e) => { return Err(e) },
    };
    let (salt, p6) = match read_field_bytes(data, p5, Tag::Salt) {
        Ok(x) => x,
        Err(e) => { return Err(e) },
    };
    let (iter, p7) = match read_field_u32(data, p6, Tag::Iter) {
        Ok(x) => x,
        Err(e) => { return Err(e) },
    };
    let (dpwt, p8) = match read_field_u32(data, p7, Tag::Dpwt) {
        Ok(x) => x,
        Err(e) => { return Err(e) },
    };
    let (dpic, p9) = match read_field_u32(data, p8, Tag::Dpic) {
        Ok(x) => x,
        Err(e) => { return Err(e) },
    };
    let (dpsl, p10) = match read_field_bytes(data, p9, Tag::Dpsl) {
        Ok(x) => x,
        Err(e) => { return Err(e) },
    };
    let ghost s10 = data@.skip(p10 as int);
    let mut others: Vec<KeyBagClass> = Vec::new();
    let mut pos = p10;
    while pos < data.len()
        invariant
            p10 <= pos <= data@.len(),
            forall|i: int|
                0 <= i < others@.len() ==> (#[trigger] class_views(others@)[i]).wf(),
            (match parse_classes(data@.skip(pos as int)) {
                Result::Ok(cs) => parse_classes(s10) == Result::<
                    Seq<KeyBagClassView>,
                    KeyBagError,
                >::Ok(class_views(others@) + cs),
                Result::Err(e) => parse_classes(s10) == Result::<
                    Seq<KeyBagClassView>,
                    KeyBagError,
                >::Err(e),
            }),
        decreases data@.len() - pos,
    {
        let ghost s_here = data@.skip(pos as int);
        let (cuuid, q1) = match read_field_uuid(data, pos, Tag::Uuid) {
            Ok(x) => x,
            Err(e) => { return Err(e) },
        };
        let (clas, q2) = match read_field_u32(data, q1, Tag::Clas) {
            Ok(x) => x,
            Err(e) => { return Err(e) },
        };
        let (cwrap, q3) = match read_field_u32(data, q2, Tag::Wrap) {
            Ok(x) => x,
            Err(e) => { return Err(e) },
        };
        let (ktyp, q4) = match read_field_u32(data, q3, Tag::Ktyp) {
            Ok(x) => x,
            Err(e) => { return Err(e) },
        };
        let (wpky, q5) = match read_field_bytes(data, q4, Tag::Wpky) {
            Ok(x) => x,
            Err(e) => { return Err(e) },
        };
        let c = KeyBagClass { uuid: cuuid, clas, wrap: cwrap, ktyp, wpky };
        proof {
            let s_next = data@.skip(q5 as int);
            assert(group_split(s_here) == Result::<
                (KeyBagClassView, Seq<u8>),
                KeyBagError,
            >::Ok((c@, s_next)));
            assert(s_here.len() > 0 && s_next.len() < s_here.len());
            let old_views = class_views(others@);
            assert(class_views(others@.push(c)) =~= old_views + seq![c@]);
            match parse_classes(s_next) {
                Result::Ok(cs) => {
                    assert(parse_classes(s_here) == Result::<
                        Seq<KeyBagClassView>,
                        KeyBagError,
                    >::Ok(seq![c@] + cs));
                    assert((old_views + seq![c@]) + cs =~= old_views + (seq![c@] + cs));
                },
                Result::Err(e) => {
                    assert(parse_classes(s_here) == Result::<
                        Seq<KeyBagClassView>,
                        KeyBagError,
                    >::Err(e));
                },
            }
        }
        others.push(c);
        pos = q5;
    }
    proof {
        assert(data@.skip(pos as int) =~= Seq::<u8>::empty());
        assert(parse_classes(data@.skip(pos as int)) == Result::<
            Seq<KeyBagClassView>,
            KeyBagError,
        >::Ok(Seq::<KeyBagClassView>::empty()));
        assert(class_views(others@) + Seq::<KeyBagClassView>::empty() =~= class_views(others@));
    }
    let kb = KeyBag { vers, ktype, uuid, hmck, wrap, salt, iter, dpwt, dpic, dpsl, others };
    Ok(kb)
}

/// Appends the 4 big-endian bytes of `v`.
fn push_be_u32(out: &mut Vec<u8>, v: u32)
    ensures
        final(out)@ == old(out)@ + be_bytes_of(v),
{
    out.push((v / 0x1000000) as u8);
    out.push((v / 0x10000 % 0x100) as u8);
    out.push((v / 0x100 % 0x100) as u8);
    out.push((v % 0x100) as u8);
    proof {
        reveal(be_bytes_of);
        assert(final(out)@ =~= old(out)@ + be_bytes_of(v));
    }
}

/// Appends all of `data`.
#[verifier::loop_isolation(false)]
fn push_bytes(out: &mut Vec<u8>, data: &[u8])
    ensures
        final(out)@ == old(out)@ + data@,
{
    let n = data.len();
    let mut i: usize = 0;
    while i < n
        invariant
            i <= n,
            out@ == old(out)@ + data@.take(i as int),
        decreases n - i,
    {
        out.push(data[i]);
        proof {
            assert(old(out)@ + data@.take(i as int) + seq![data@[i as int]] =~= old(out)@
                + data@.take(i as int + 1));
        }
        i = i + 1;
    }
    proof {
        assert(data@.take(n as int) =~= data@);
    }
}

/// Appends one TLV record.
fn push_tlv(out: &mut Vec<u8>, tag: u32, payload: &[u8])
    requires
        payload@.len() <= u32::MAX,
    ensures
        final(out)@ == old(out)@ + tlv(tag, payload@),
{
    push_be_u32(out, tag);
    push_be_u32(out, payload.len() as u32);
    push_bytes(out, payload);
    proof {
        broadcast use lemma_be_bytes_len;

        assert(final(out)@ =~= old(out)@ + tlv(tag, payload@));
    }
}

/// Appends one TLV record whose payload is a big-endian integer.
fn push_u32_record(out: &mut Vec<u8>, t: Tag, v: u32)
    ensures
        final(out)@ == old(out)@ + tlv(tag_code(t), be_bytes_of(v)),
{
    push_be_u32(out, t.code());
    push_be_u32(out, 4);
    push_be_u32(out, v);
    proof {
        broadcast use lemma_be_bytes_len;

        assert(final(out)@ =~= old(out)@ + tlv(tag_code(t), be_bytes_of(v)));
    }
}

#[verifier::rlimit(100)]
proof fn lemma_ser_classes_snoc(cs: Seq<KeyBagClassView>, i: int)
    requires
        0 <= i < cs.len(),
    ensures
        ser_classes(cs.take(i + 1)) == ser_classes(cs.take(i)) + ser_class(cs[i]),
    decreases i,
{
    broadcast use lemma_be_bytes_len;

    if i == 0 {
        assert(cs.take(1).skip(1) =~= Seq::<KeyBagClassView>::empty());
        assert(cs.take(1)[0] == cs[0]);
        assert(ser_classes(cs.take(1)) == ser_class(cs.take(1)[0]) + ser_classes(
            cs.take(1).skip(1),
        ));
        assert(ser_classes(cs.take(1)) =~= ser_class(cs[0]));
        assert(ser_classes(cs.take(0)) + ser_class(cs[0]) =~= ser_class(cs[0]));
    } else {
        lemma_ser_classes_snoc(cs.skip(1), i - 1);
        assert(cs.take(i + 1).skip(1) =~= cs.skip(1).take(i));
        assert(cs.take(i).skip(1) =~= cs.skip(1).take(i - 1));
        assert(cs.take(i + 1)[0] == cs[0] && cs.take(i)[0] == cs[0]);
        assert(cs.skip(1)[i - 1] == cs[i]);
        assert(ser_classes(cs.take(i + 1)) == ser_class(cs[0]) + ser_classes(cs.skip(1).take(i)));
        assert(ser_class(cs[0]) + (ser_classes(cs.skip(1).take(i - 1)) + ser_class(cs[i])) =~= (
        ser_class(cs[0]) + ser_classes(cs.skip(1).take(i - 1))) + ser_class(cs[i]));
    }
}

/// Writes a keybag back to its TLV form.
#[verifier::loop_isolation(false)]
#[verifier::rlimit(100)]
pub fn serialize_keybag(kb: &KeyBag) -> (r: Vec<u8>)
    requires
        kb@.wf(),
    ensures
        r@ == ser_keybag_spec(kb@),
{
    let mut out: Vec<u8> = Vec::new();
    push_u32_record(&mut out, Tag::Vers, kb.vers);
    push_u32_record(&mut out, Tag::Type, kb.ktype);
    push_tlv(&mut out, Tag::Uuid.code(), kb.uuid.as_slice());
    push_tlv(&mut out, Tag::Hmck.code(), kb.hmck.as_slice());
    push_u32_record(&mut out, Tag::Wrap, kb.wrap);
    push_tlv(&mut out, Tag::Salt.code(), kb.salt.as_slice());
    push_u32_record(&mut out, Tag::Iter, kb.iter);
    push_u32_record(&mut out, Tag::Dpwt, kb.dpwt);
    push_u32_record(&mut out, Tag::Dpic, kb.dpic);
    push_tlv(&mut out, Tag::Dpsl.code(), kb.dpsl.as_slice());
    let ghost header = out@;
    let n = kb.others.len();
    let mut i: usize = 0;
    while i < n
        invariant
            i <= n,
            out@ == header + ser_classes(class_views(kb.others@).take(i as int)),
        decreases n - i,
    {
        let c = &kb.others[i];
        proof {
            assert(class_views(kb.others@)[i as int] == kb.others@[i as int]@);
            assert(kb@.others[i as int].wf());
        }
        let ghost pre = out@;
        push_tlv(&mut out, Tag::Uuid.code(), c.uuid.as_slice());
        push_u32_record(&mut out, Tag::Clas, c.clas);
        push_u32_record(&mut out, Tag::Wrap, c.wrap);
        push_u32_record(&mut out, Tag::Ktyp, c.ktyp);
        push_tlv(&mut out, Tag::Wpky.code(), c.wpky.as_slice());
        proof {
            broadcast use lemma_be_bytes_len;

            let cv = class_views(kb.others@)[i as int];
            assert(out@ =~= pre + ser_class(cv));
            lemma_ser_classes_snoc(class_views(kb.others@), i as int);
        }
        i = i + 1;
    }
    proof {
        broadcast use lemma_be_bytes_len;

        assert(class_views(kb.others@).take(n as int) =~= class_views(kb.others@));
        assert(out@ =~= ser_keybag_spec(kb@));
    }
    out
}

} // verus!
