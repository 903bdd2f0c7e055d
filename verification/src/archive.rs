//! The per-file metadata record of the manifest and its decoder from
//! Apple's keyed-archive plist format: an object table with UID
//! references, class signatures that must match, and typed fields.

use vstd::prelude::*;

verus! {

/// What a plist value holds, as a mathematical tree: dictionaries keep
/// their entry order, integers are unbounded, and value kinds the
/// decoder never reads collapse into `Other`.
pub enum PNode {
    Dict(Seq<(Seq<char>, PNode)>),
    Arr(Seq<PNode>),
    Str(Seq<char>),
    Data(Seq<u8>),
    Int(int),
    Uid(int),
    Bool(bool),
    Other,
}

#[verifier::external_type_specification]
#[verifier::external_body]
pub struct ExValue(plist::Value);

/// What a `plist::Value` holds; a function of the value alone.
pub uninterp spec fn pv(v: plist::Value) -> PNode;

/// What parsing a byte string as a plist yields: the parsed value's
/// content, or nothing when the bytes are no plist; a function of the
/// bytes alone.
pub uninterp spec fn plist_parse(bytes: Seq<u8>) -> Option<PNode>;

/// The contents of a sequence of plist values.
pub open spec fn pvs(s: Seq<plist::Value>) -> Seq<PNode> {
    s.map_values(|v: plist::Value| pv(v))
}

/// The contents of a dictionary's entry list.
pub open spec fn dict_views(es: Seq<(String, plist::Value)>) -> Seq<(Seq<char>, PNode)> {
    es.map_values(|e: (String, plist::Value)| (e.0@, pv(e.1)))
}

/// Relies on `plist::from_bytes::<plist::Value>`: parses a plist of
/// any encoding from bytes; deterministic in the bytes.
#[verifier::external_body]
fn parse_value(bytes: &[u8]) -> (r: Option<plist::Value>)
    ensures
        match r {
            Some(v) => plist_parse(bytes@) == Some(pv(v)),
            None => plist_parse(bytes@) is None,
        },
{
    plist::from_bytes::<plist::Value>(bytes).ok()
}

/// Relies on `plist::Value::as_dictionary` and
/// `plist::Dictionary::iter`: the dictionary's entries in order, or
/// nothing for a value of another kind.
#[verifier::external_body]
fn value_dict_entries(v: &plist::Value) -> (r: Option<Vec<(String, plist::Value)>>)
    ensures
        match r {
            Some(es) => pv(*v) matches PNode::Dict(d) && d == dict_views(es@),
            None => !(pv(*v) is Dict),
        },
{
    v.as_dictionary().map(|d| d.iter().map(|(k, val)| (k.clone(), val.clone())).collect())
}

/// Relies on `plist::Value::as_array`: the array's elements, or
/// nothing for a value of another kind.
#[verifier::external_body]
fn value_as_array(v: &plist::Value) -> (r: Option<Vec<plist::Value>>)
    ensures
        match r {
            Some(a) => pv(*v) matches PNode::Arr(ns) && ns == pvs(a@),
            None => !(pv(*v) is Arr),
        },
{
    v.as_array().cloned()
}

/// Relies on `plist::Value::as_string`: the string's characters, or
/// nothing for a value of another kind.
#[verifier::external_body]
fn value_as_string(v: &plist::Value) -> (r: Option<String>)
    ensures
        match r {
            Some(s) => pv(*v) == PNode::Str(s@),
            None => !(pv(*v) is Str),
        },
{
    v.as_string().map(|s| s.to_owned())
}

/// Relies on `plist::Value::as_data`: the byte string's bytes, or
/// nothing for a value of another kind.
#[verifier::external_body]
fn value_as_data(v: &plist::Value) -> (r: Option<Vec<u8>>)
    ensures
        match r {
            Some(d) => pv(*v) == PNode::Data(d@),
            None => !(pv(*v) is Data),
        },
{
    v.as_data().map(|d| d.to_vec())
}

/// Relies on `plist::Value::as_unsigned_integer`: the integer when it
/// is one and fits an unsigned 64-bit value.
#[verifier::external_body]
fn value_as_unsigned(v: &plist::Value) -> (r: Option<u64>)
    ensures
        match r {
            Some(u) => pv(*v) == PNode::Int(u as int),
            None => !(pv(*v) matches PNode::Int(i) && 0 <= i <= u64::MAX),
        },
{
    v.as_unsigned_integer()
}

/// Relies on `plist::Value::as_signed_integer`: the integer when it is
/// one and fits a signed 64-bit value.
#[verifier::external_body]
fn value_as_signed(v: &plist::Value) -> (r: Option<i64>)
    ensures
        match r {
            Some(u) => pv(*v) == PNode::Int(u as int),
            None => !(pv(*v) matches PNode::Int(i) && i64::MIN <= i <= i64::MAX),
        },
{
    v.as_signed_integer()
}

/// Relies on `plist::Value::as_uid` and `plist::Uid::get`: the UID's
/// value, or nothing for a value of another kind.
#[verifier::external_body]
fn value_as_uid(v: &plist::Value) -> (r: Option<u64>)
    ensures
        match r {
            Some(u) => pv(*v) == PNode::Uid(u as int),
            None => !(pv(*v) is Uid),
        },
{
    v.as_uid().map(|u| u.get())
}

/// One value of a file's extended-attribute dictionary: a byte string,
/// or something else (which a lookup reports as an error).
#[derive(Debug)]
pub enum XattrValue {
    Data(Vec<u8>),
    Other,
}

/// The decoded extended-attributes payload: the dictionary of the
/// nested plist, or the fact that its root was not a dictionary.
#[derive(Debug)]
pub enum XattrPayload {
    Dict(Vec<(String, XattrValue)>),
    NotDict,
}

/// The metadata record kept for every backed-up file: sizes, times,
/// ownership, its path, and the optional digest, wrapped per-file key
/// and extended attributes.
#[derive(Debug)]
pub struct MBFile {
    pub size: u64,
    pub birth: u64,
    pub last_modified: u64,
    pub last_status_change: u64,
    pub flags: u64,
    pub user_id: i64,
    pub group_id: i64,
    pub inode_number: u64,
    pub mode: u64,
    pub protection_class: u64,
    pub relative_path: String,
    pub target: Option<String>,
    pub digest: Option<Vec<u8>>,
    pub encryption_key: Option<Vec<u8>>,
    pub extended_attributes: Option<XattrPayload>,
}

} // verus!

verus! {

/// The first value stored under `key` in a dictionary's entries.
pub open spec fn dict_get(es: Seq<(Seq<char>, PNode)>, key: Seq<char>) -> Option<PNode>
    decreases es.len(),
{
    if es.len() == 0 {
        None
    } else if es[0].0 == key {
        Some(es[0].1)
    } else {
        dict_get(es.skip(1), key)
    }
}

/// Follows one UID reference into the object table; any other value
/// stands for itself.
pub open spec fn deref(objs: Seq<PNode>, n: PNode) -> Option<PNode> {
    match n {
        PNode::Uid(u) => if 0 <= u < objs.len() {
            Some(objs[u])
        } else {
            None
        },
        _ => Some(n),
    }
}

/// The characters of a string field, inline or by UID reference.
pub open spec fn str_of(objs: Seq<PNode>, n: PNode) -> Option<Seq<char>> {
    match deref(objs, n) {
        Some(PNode::Str(s)) => Some(s),
        _ => None,
    }
}

/// The bytes of a data field, inline or by UID reference.
pub open spec fn data_of(objs: Seq<PNode>, n: PNode) -> Option<Seq<u8>> {
    match deref(objs, n) {
        Some(PNode::Data(d)) => Some(d),
        _ => None,
    }
}

/// The value of an unsigned integer field (inline only).
pub open spec fn u64_of(n: PNode) -> Option<u64> {
    match n {
        PNode::Int(i) => if 0 <= i <= u64::MAX {
            Some(i as u64)
        } else {
            None
        },
        _ => None,
    }
}

/// The value of a signed integer field (inline only).
pub open spec fn i64_of(n: PNode) -> Option<i64> {
    match n {
        PNode::Int(i) => if i64::MIN <= i <= i64::MAX {
            Some(i as i64)
        } else {
            None
        },
        _ => None,
    }
}

/// Whether an object list is exactly the given strings.
pub open spec fn classes_match(ns: Seq<PNode>, expected: Seq<Seq<char>>) -> bool {
    ns.len() == expected.len() && forall|i: int|
        0 <= i < ns.len() ==> #[trigger] ns[i] == PNode::Str(expected[i])
}

/// Whether a record's `$class` reference leads to a class dictionary
/// whose `$classname` and full `$classes` list are exactly as
/// expected.
pub open spec fn class_ok(
    objs: Seq<PNode>,
    es: Seq<(Seq<char>, PNode)>,
    name: Seq<char>,
    expected: Seq<Seq<char>>,
) -> bool {
    match dict_get(es, "$class"@) {
        Some(PNode::Uid(u)) => 0 <= u < objs.len() && (match objs[u] {
            PNode::Dict(ces) => {
                &&& dict_get(ces, "$classname"@) == Some(PNode::Str(name))
                &&& (match dict_get(ces, "$classes"@) {
                    Some(PNode::Arr(ns)) => classes_match(ns, expected),
                    _ => false,
                })
            },
            _ => false,
        }),
        _ => false,
    }
}

/// The object table and root object of a keyed archive: a dictionary
/// of exactly the four archive keys, the right version and archiver
/// name, a top dictionary holding only the root UID, and that UID
/// inside the object list.
pub open spec fn archive_of(pn: PNode) -> Option<(Seq<PNode>, PNode)> {
    match pn {
        PNode::Dict(es) => {
            if es.len() == 4 && dict_get(es, "$version"@) == Some(PNode::Int(100000))
                && dict_get(es, "$archiver"@) == Some(PNode::Str("NSKeyedArchiver"@)) {
                match (dict_get(es, "$top"@), dict_get(es, "$objects"@)) {
                    (Some(PNode::Dict(tes)), Some(PNode::Arr(objs))) => {
                        if tes.len() == 1 {
                            match dict_get(tes, "root"@) {
                                Some(PNode::Uid(u)) => if 0 <= u < objs.len() {
                                    Some((objs, objs[u]))
                                } else {
                                    None
                                },
                                _ => None,
                            }
                        } else {
                            None
                        }
                    },
                    _ => None,
                }
            } else {
                None
            }
        },
        _ => None,
    }
}

/// The mathematical image of an extended-attribute value.
pub enum XValView {
    Data(Seq<u8>),
    Other,
}

/// The mathematical image of an extended-attributes payload.
pub enum XattrView {
    Dict(Seq<(Seq<char>, XValView)>),
    NotDict,
}

/// The image of one attribute value: bytes, or something else.
pub open spec fn xval_of(n: PNode) -> XValView {
    match n {
        PNode::Data(d) => XValView::Data(d),
        _ => XValView::Other,
    }
}

/// The image of a parsed extended-attributes plist: its dictionary
/// entries with byte-string values kept, or the fact that its root is
/// no dictionary.
pub open spec fn xattr_of(pn: PNode) -> XattrView {
    match pn {
        PNode::Dict(es) => XattrView::Dict(
            es.map_values(|e: (Seq<char>, PNode)| (e.0, xval_of(e.1))),
        ),
        _ => XattrView::NotDict,
    }
}

/// The image of the extended-attributes field: its bytes must parse as
/// a plist, whose content is then read as a dictionary.
pub open spec fn xattr_view_of(objs: Seq<PNode>, n: PNode) -> Option<XattrView> {
    match data_of(objs, n) {
        None => None,
        Some(bytes) => match plist_parse(bytes) {
            None => None,
            Some(pn) => Some(xattr_of(pn)),
        },
    }
}

/// The bytes of the wrapped per-file key: the field must lead to an
/// `NSMutableData` record (class verified) whose `NS.data` field holds
/// the bytes.
pub open spec fn enc_key_of(objs: Seq<PNode>, n: PNode) -> Option<Seq<u8>> {
    match deref(objs, n) {
        Some(PNode::Dict(ke)) => {
            if class_ok(
                objs,
                ke,
                "NSMutableData"@,
                seq!["NSMutableData"@, "NSData"@, "NSObject"@],
            ) {
                match dict_get(ke, "NS.data"@) {
                    Some(dn) => data_of(objs, dn),
                    None => None,
                }
            } else {
                None
            }
        },
        _ => None,
    }
}

/// Whether `k` is a field name of the metadata record.
pub open spec fn valid_mb_key(k: Seq<char>) -> bool {
    ||| k == "LastModified"@
    ||| k == "Flags"@
    ||| k == "ExtendedAttributes"@
    ||| k == "GroupID"@
    ||| k == "Target"@
    ||| k == "LastStatusChange"@
    ||| k == "RelativePath"@
    ||| k == "Birth"@
    ||| k == "EncryptionKey"@
    ||| k == "Size"@
    ||| k == "Digest"@
    ||| k == "InodeNumber"@
    ||| k == "Mode"@
    ||| k == "UserID"@
    ||| k == "ProtectionClass"@
    ||| k == "$class"@
}

/// Whether a required unsigned integer field is present and in range.
pub open spec fn req_u64(es: Seq<(Seq<char>, PNode)>, key: Seq<char>) -> bool {
    match dict_get(es, key) {
        Some(n) => u64_of(n) is Some,
        None => false,
    }
}

/// Whether a required signed integer field is present and in range.
pub open spec fn req_i64(es: Seq<(Seq<char>, PNode)>, key: Seq<char>) -> bool {
    match dict_get(es, key) {
        Some(n) => i64_of(n) is Some,
        None => false,
    }
}

/// Whether a record dictionary is a well-formed metadata record: only
/// known field names, none twice, the `MBFile` class signature, every
/// required field present with its type, and every optional field,
/// when present, well-typed.
pub open spec fn mb_ok(objs: Seq<PNode>, es: Seq<(Seq<char>, PNode)>) -> bool {
    &&& forall|i: int| 0 <= i < es.len() ==> valid_mb_key((#[trigger] es[i]).0)
    &&& forall|i: int, j: int|
        0 <= i < es.len() && 0 <= j < es.len() && i != j ==> (#[trigger] es[i]).0 != (
        #[trigger] es[j]).0
    &&& class_ok(objs, es, "MBFile"@, seq!["MBFile"@, "NSObject"@])
    &&& req_u64(es, "LastModified"@)
    &&& req_u64(es, "Flags"@)
    &&& req_u64(es, "LastStatusChange"@)
    &&& req_u64(es, "Birth"@)
    &&& req_u64(es, "Size"@)
    &&& req_u64(es, "InodeNumber"@)
    &&& req_u64(es, "Mode"@)
    &&& req_u64(es, "ProtectionClass"@)
    &&& req_i64(es, "GroupID"@)
    &&& req_i64(es, "UserID"@)
    &&& (match dict_get(es, "RelativePath"@) {
        Some(n) => str_of(objs, n) is Some,
        None => false,
    })
    &&& (match dict_get(es, "Target"@) {
        Some(n) => str_of(objs, n) is Some,
        None => true,
    })
    &&& (match dict_get(es, "Digest"@) {
        Some(n) => data_of(objs, n) is Some,
        None => true,
    })
    &&& (match dict_get(es, "EncryptionKey"@) {
        Some(n) => enc_key_of(objs, n) is Some,
        None => true,
    })
    &&& (match dict_get(es, "ExtendedAttributes"@) {
        Some(n) => xattr_view_of(objs, n) is Some,
        None => true,
    })
}

/// The mathematical image of a metadata record.
pub struct MBView {
    pub size: u64,
    pub birth: u64,
    pub last_modified: u64,
    pub last_status_change: u64,
    pub flags: u64,
    pub user_id: i64,
    pub group_id: i64,
    pub inode_number: u64,
    pub mode: u64,
    pub protection_class: u64,
    pub relative_path: Seq<char>,
    pub target: Option<Seq<char>>,
    pub digest: Option<Seq<u8>>,
    pub encryption_key: Option<Seq<u8>>,
    pub extended_attributes: Option<XattrView>,
}

/// The record a well-formed record dictionary denotes.
pub open spec fn mb_extract(objs: Seq<PNode>, es: Seq<(Seq<char>, PNode)>) -> MBView {
    MBView {
        size: u64_of(dict_get(es, "Size"@).unwrap()).unwrap(),
        birth: u64_of(dict_get(es, "Birth"@).unwrap()).unwrap(),
        last_modified: u64_of(dict_get(es, "LastModified"@).unwrap()).unwrap(),
        last_status_change: u64_of(dict_get(es, "LastStatusChange"@).unwrap()).unwrap(),
        flags: u64_of(dict_get(es, "Flags"@).unwrap()).unwrap(),
        user_id: i64_of(dict_get(es, "UserID"@).unwrap()).unwrap(),
        group_id: i64_of(dict_get(es, "GroupID"@).unwrap()).unwrap(),
        inode_number: u64_of(dict_get(es, "InodeNumber"@).unwrap()).unwrap(),
        mode: u64_of(dict_get(es, "Mode"@).unwrap()).unwrap(),
        protection_class: u64_of(dict_get(es, "ProtectionClass"@).unwrap()).unwrap(),
        relative_path: str_of(objs, dict_get(es, "RelativePath"@).unwrap()).unwrap(),
        target: match dict_get(es, "Target"@) {
            Some(n) => Some(str_of(objs, n).unwrap()),
            None => None,
        },
        digest: match dict_get(es, "Digest"@) {
            Some(n) => Some(data_of(objs, n).unwrap()),
            None => None,
        },
        encryption_key: match dict_get(es, "EncryptionKey"@) {
            Some(n) => Some(enc_key_of(objs, n).unwrap()),
            None => None,
        },
        extended_attributes: match dict_get(es, "ExtendedAttributes"@) {
            Some(n) => Some(xattr_view_of(objs, n).unwrap()),
            None => None,
        },
    }
}

/// The record denoted by a manifest BLOB: a keyed archive whose root
/// is a well-formed metadata record.
pub open spec fn blob_decode(bytes: Seq<u8>) -> Option<MBView> {
    match plist_parse(bytes) {
        None => None,
        Some(pn) => match archive_of(pn) {
            None => None,
            Some((objs, root)) => match root {
                PNode::Dict(es) => if mb_ok(objs, es) {
                    Some(mb_extract(objs, es))
                } else {
                    None
                },
                _ => None,
            },
        },
    }
}

} // verus!

verus! {

/// The index of the first entry stored under `key`.
#[verifier::loop_isolation(false)]
fn dict_find(es: &Vec<(String, plist::Value)>, key: &String) -> (r: Option<usize>)
    ensures
        match r {
            Some(i) => i < es@.len() && es@[i as int].0@ == key@ && dict_get(
                dict_views(es@),
                key@,
            ) == Some(pv(es@[i as int].1)),
            None => dict_get(dict_views(es@), key@) is None,
        },
{
    let n = es.len();
    proof {
        assert(dict_views(es@).skip(0) =~= dict_views(es@));
    }
    let mut i: usize = 0;
    while i < n
        invariant
            i <= n,
            n == es@.len(),
            dict_views(es@).len() == n,
            dict_get(dict_views(es@), key@) == dict_get(dict_views(es@).skip(i as int), key@),
            forall|j: int|
                0 <= j < n ==> #[trigger] dict_views(es@)[j] == (es@[j].0@, pv(es@[j].1)),
        decreases n - i,
    {
        proof {
            assert(dict_views(es@).skip(i as int)[0] == dict_views(es@)[i as int]);
        }
        if es[i].0.eq(key) {
            return Some(i);
        }
        proof {
            assert(dict_views(es@).skip(i as int).skip(1) =~= dict_views(es@).skip(i as int + 1));
        }
        i = i + 1;
    }
    proof {
        assert(dict_views(es@).skip(n as int) =~= Seq::<(Seq<char>, PNode)>::empty());
    }
    None
}

/// Follows one UID reference into the object table.
fn deref_value<'a>(objs: &'a Vec<plist::Value>, v: &'a plist::Value) -> (r: Option<
    &'a plist::Value,
>)
    ensures
        match r {
            Some(w) => deref(pvs(objs@), pv(*v)) == Some(pv(*w)),
            None => deref(pvs(objs@), pv(*v)) is None,
        },
{
    match value_as_uid(v) {
        Some(u) => {
            if u < objs.len() as u64 {
                proof {
                    assert(pvs(objs@)[u as int] == pv(objs@[u as int]));
                }
                Some(&objs[u as usize])
            } else {
                None
            }
        },
        None => Some(v),
    }
}

/// A string field, inline or by UID reference.
fn get_str(objs: &Vec<plist::Value>, v: &plist::Value) -> (r: Option<String>)
    ensures
        match r {
            Some(s) => str_of(pvs(objs@), pv(*v)) == Some(s@),
            None => str_of(pvs(objs@), pv(*v)) is None,
        },
{
    match deref_value(objs, v) {
        None => None,
        Some(w) => value_as_string(w),
    }
}

/// A data field, inline or by UID reference.
fn get_data(objs: &Vec<plist::Value>, v: &plist::Value) -> (r: Option<Vec<u8>>)
    ensures
        match r {
            Some(d) => data_of(pvs(objs@), pv(*v)) == Some(d@),
            None => data_of(pvs(objs@), pv(*v)) is None,
        },
{
    match deref_value(objs, v) {
        None => None,
        Some(w) => value_as_data(w),
    }
}

/// Checks a record's class signature against the expected class name
/// and class list.
#[verifier::loop_isolation(false)]
fn check_class(
    objs: &Vec<plist::Value>,
    es: &Vec<(String, plist::Value)>,
    name: &String,
    expected: &Vec<String>,
) -> (r: bool)
    ensures
        r == class_ok(
            pvs(objs@),
            dict_views(es@),
            name@,
            crate::fstree::string_views(expected@),
        ),
{
    let ghost expected_v = crate::fstree::string_views(expected@);
    let cu = match dict_find(es, &String::from_str("$class")) {
        Some(i) => &es[i].1,
        None => {
            return false;
        },
    };
    let u = match value_as_uid(cu) {
        Some(u) => u,
        None => {
            return false;
        },
    };
    if u >= objs.len() as u64 {
        return false;
    }
    proof {
        assert(pvs(objs@)[u as int] == pv(objs@[u as int]));
    }
    let ces = match value_dict_entries(&objs[u as usize]) {
        Some(c) => c,
        None => {
            return false;
        },
    };
    let nm = match dict_find(&ces, &String::from_str("$classname")) {
        Some(i) => match value_as_string(&ces[i].1) {
            Some(s) => s,
            None => {
                return false;
            },
        },
        None => {
            return false;
        },
    };
    if !nm.eq(name) {
        return false;
    }
    let cl = match dict_find(&ces, &String::from_str("$classes")) {
        Some(i) => match value_as_array(&ces[i].1) {
            Some(a) => a,
            None => {
                return false;
            },
        },
        None => {
            return false;
        },
    };
    let k = cl.len();
    if k != expected.len() {
        return false;
    }
    let mut i: usize = 0;
    while i < k
        invariant
            i <= k,
            k == cl@.len() == expected@.len(),
            forall|j: int| 0 <= j < i ==> #[trigger] pvs(cl@)[j] == PNode::Str(expected_v[j]),
        decreases k - i,
    {
        proof {
            assert(pvs(cl@)[i as int] == pv(cl@[i as int]));
            assert(expected_v[i as int] == expected@[i as int]@);
        }
        match value_as_string(&cl[i]) {
            Some(s) => {
                if !s.eq(&expected[i]) {
                    return false;
                }
            },
            None => {
                return false;
            },
        }
        i = i + 1;
    }
    proof {
        assert(classes_match(pvs(cl@), expected_v));
    }
    true
}

/// A required unsigned integer field.
fn get_req_u64(es: &Vec<(String, plist::Value)>, key: &String) -> (r: Option<u64>)
    ensures
        match r {
            Some(u) => dict_get(dict_views(es@), key@) matches Some(n) && u64_of(n) == Some(u),
            None => !req_u64(dict_views(es@), key@),
        },
{
    match dict_find(es, key) {
        None => None,
        Some(i) => value_as_unsigned(&es[i].1),
    }
}

/// A required signed integer field.
fn get_req_i64(es: &Vec<(String, plist::Value)>, key: &String) -> (r: Option<i64>)
    ensures
        match r {
            Some(u) => dict_get(dict_views(es@), key@) matches Some(n) && i64_of(n) == Some(u),
            None => !req_i64(dict_views(es@), key@),
        },
{
    match dict_find(es, key) {
        None => None,
        Some(i) => value_as_signed(&es[i].1),
    }
}

} // verus!

verus! {

/// The image of one decoded attribute value.
pub open spec fn xval_view(x: XattrValue) -> XValView {
    match x {
        XattrValue::Data(d) => XValView::Data(d@),
        XattrValue::Other => XValView::Other,
    }
}

/// The images of decoded attribute entries.
pub open spec fn xe_views(s: Seq<(String, XattrValue)>) -> Seq<(Seq<char>, XValView)> {
    s.map_values(|e: (String, XattrValue)| (e.0@, xval_view(e.1)))
}

/// The image of a decoded extended-attributes payload.
pub open spec fn xp_view(x: XattrPayload) -> XattrView {
    match x {
        XattrPayload::Dict(es) => XattrView::Dict(xe_views(es@)),
        XattrPayload::NotDict => XattrView::NotDict,
    }
}

/// The image of a decoded metadata record.
pub open spec fn mb_view(m: MBFile) -> MBView {
    MBView {
        size: m.size,
        birth: m.birth,
        last_modified: m.last_modified,
        last_status_change: m.last_status_change,
        flags: m.flags,
        user_id: m.user_id,
        group_id: m.group_id,
        inode_number: m.inode_number,
        mode: m.mode,
        protection_class: m.protection_class,
        relative_path: m.relative_path@,
        target: match m.target {
            Some(s) => Some(s@),
            None => None,
        },
        digest: match m.digest {
            Some(d) => Some(d@),
            None => None,
        },
        encryption_key: match m.encryption_key {
            Some(d) => Some(d@),
            None => None,
        },
        extended_attributes: match m.extended_attributes {
            Some(x) => Some(xp_view(x)),
            None => None,
        },
    }
}

/// Reads a parsed extended-attributes plist as a dictionary of byte
/// strings.
#[verifier::loop_isolation(false)]
fn convert_xattrs(v: &plist::Value) -> (r: XattrPayload)
    ensures
        xp_view(r) == xattr_of(pv(*v)),
{
    let es = match value_dict_entries(v) {
        None => {
            return XattrPayload::NotDict;
        },
        Some(es) => es,
    };
    let n = es.len();
    let mut out: Vec<(String, XattrValue)> = Vec::new();
    while out.len() < n
        invariant
            out@.len() <= n,
            n == es@.len(),
            pv(*v) matches PNode::Dict(d) && d == dict_views(es@),
            forall|j: int|
                0 <= j < out@.len() ==> #[trigger] xe_views(out@)[j] == (
                    es@[j].0@,
                    xval_of(pv(es@[j].1)),
                ),
        decreases n - out.len(),
    {
        let i = out.len();
        let name = es[i].0.clone();
        let val = match value_as_data(&es[i].1) {
            Some(d) => XattrValue::Data(d),
            None => XattrValue::Other,
        };
        let ghost pre = out@;
        out.push((name, val));
        proof {
            assert(xe_views(out@) =~= xe_views(pre).push(
                (es@[i as int].0@, xval_of(pv(es@[i as int].1))),
            ));
        }
    }
    proof {
        let lhs = xe_views(out@);
        let rhs = dict_views(es@).map_values(|e: (Seq<char>, PNode)| (e.0, xval_of(e.1)));
        assert forall|j: int| 0 <= j < n implies lhs[j] == rhs[j] by {
            assert(dict_views(es@)[j] == (es@[j].0@, pv(es@[j].1)));
        }
        assert(lhs =~= rhs);
    }
    XattrPayload::Dict(out)
}

/// Why a manifest BLOB could not be decoded: it is not a plist at all,
/// or it is not a well-formed keyed archive of a metadata record.
#[derive(Clone, Copy, Debug, PartialEq, Eq, Structural)]
pub enum DecodeError {
    NotAPlist,
    Malformed,
}

/// Decodes a manifest BLOB: parses the plist, checks the archive
/// frame (version, archiver, root reference), verifies the record's
/// class signature, and reads every field, rejecting unknown or
/// repeated field names.  Succeeds exactly when the BLOB denotes a
/// well-formed record, and then returns exactly that record.
#[verifier::loop_isolation(false)]
#[verifier::rlimit(100)]
pub fn decode_mbfile(blob: &[u8]) -> (r: Result<MBFile, DecodeError>)
    ensures
        match r {
            Ok(m) => blob_decode(blob@) == Some(mb_view(m)),
            Err(DecodeError::NotAPlist) => plist_parse(blob@) is None,
            Err(DecodeError::Malformed) => plist_parse(blob@) is Some && blob_decode(
                blob@,
            ) is None,
        },
{
    let v = match parse_value(blob) {
        Some(v) => v,
        None => {
            return Err(DecodeError::NotAPlist);
        },
    };
    let aes_ = match value_dict_entries(&v) {
        Some(es) => es,
        None => {
            return Err(DecodeError::Malformed);
        },
    };
    if aes_.len() != 4 {
        return Err(DecodeError::Malformed);
    }
    // $version == 100000
    match dict_find(&aes_, &String::from_str("$version")) {
        Some(i) => {
            match value_as_unsigned(&aes_[i].1) {
                Some(u) => {
                    if u != 100000 {
                        return Err(DecodeError::Malformed);
                    }
                },
                None => {
                    return Err(DecodeError::Malformed);
                },
            }
        },
        None => {
            return Err(DecodeError::Malformed);
        },
    }
    // $archiver == "NSKeyedArchiver"
    match dict_find(&aes_, &String::from_str("$archiver")) {
        Some(i) => {
            match value_as_string(&aes_[i].1) {
                Some(s) => {
                    if !s.eq(&String::from_str("NSKeyedArchiver")) {
                        return Err(DecodeError::Malformed);
                    }
                },
                None => {
                    return Err(DecodeError::Malformed);
                },
            }
        },
        None => {
            return Err(DecodeError::Malformed);
        },
    }
    // $top: a dictionary holding only the root UID
    let root_uid: u64 = match dict_find(&aes_, &String::from_str("$top")) {
        Some(i) => {
            match value_dict_entries(&aes_[i].1) {
                Some(tes) => {
                    if tes.len() != 1 {
                        return Err(DecodeError::Malformed);
                    }
                    match dict_find(&tes, &String::from_str("root")) {
                        Some(j) => match value_as_uid(&tes[j].1) {
                            Some(u) => u,
                            None => {
                                return Err(DecodeError::Malformed);
                            },
                        },
                        None => {
                            return Err(DecodeError::Malformed);
                        },
                    }
                },
                None => {
                    return Err(DecodeError::Malformed);
                },
            }
        },
        None => {
            return Err(DecodeError::Malformed);
        },
    };
    // $objects, and the root object inside it
    let objs: Vec<plist::Value> = match dict_find(&aes_, &String::from_str("$objects")) {
        Some(i) => match value_as_array(&aes_[i].1) {
            Some(a) => a,
            None => {
                return Err(DecodeError::Malformed);
            },
        },
        None => {
            return Err(DecodeError::Malformed);
        },
    };
    if root_uid >= objs.len() as u64 {
        return Err(DecodeError::Malformed);
    }
    let ghost objs_v = pvs(objs@);
    proof {
        assert(objs_v[root_uid as int] == pv(objs@[root_uid as int]));
        assert(archive_of(pv(v)) == Some((objs_v, objs_v[root_uid as int])));
    }
    let root = &objs[root_uid as usize];
    let es = match value_dict_entries(root) {
        Some(es) => es,
        None => {
            return Err(DecodeError::Malformed);
        },
    };
    let ghost es_v = dict_views(es@);

    // Every field name must be known, and none may repeat.
    let names: Vec<String> = vec![
        String::from_str("LastModified"),
        String::from_str("Flags"),
        String::from_str("ExtendedAttributes"),
        String::from_str("GroupID"),
        String::from_str("Target"),
        String::from_str("LastStatusChange"),
        String::from_str("RelativePath"),
        String::from_str("Birth"),
        String::from_str("EncryptionKey"),
        String::from_str("Size"),
        String::from_str("Digest"),
        String::from_str("InodeNumber"),
        String::from_str("Mode"),
        String::from_str("UserID"),
        String::from_str("ProtectionClass"),
        String::from_str("$class"),
    ];
    let en = es.len();
    let mut i: usize = 0;
    while i < en
        invariant
            i <= en,
            en == es@.len(),
            es_v == dict_views(es@),
            es_v.len() == en,
            names@.len() == 16,
            crate::fstree::string_views(names@) == seq![
                "LastModified"@, "Flags"@, "ExtendedAttributes"@, "GroupID"@, "Target"@,
                "LastStatusChange"@, "RelativePath"@, "Birth"@, "EncryptionKey"@, "Size"@,
                "Digest"@, "InodeNumber"@, "Mode"@, "UserID"@, "ProtectionClass"@, "$class"@,
            ],
            forall|j: int| 0 <= j < i ==> valid_mb_key((#[trigger] es_v[j]).0),
            forall|j1: int, j2: int|
                0 <= j1 < i && 0 <= j2 < i && j1 != j2 ==> (#[trigger] es_v[j1]).0 != (
                #[trigger] es_v[j2]).0,
        decreases en - i,
    {
        proof {
            assert(es_v[i as int] == (es@[i as int].0@, pv(es@[i as int].1)));
        }
        // known name?
        let mut t: usize = 0;
        let mut known = false;
        while t < 16
            invariant
                t <= 16,
                names@.len() == 16,
                i < en,
                en == es@.len(),
                es_v == dict_views(es@),
                es_v.len() == en,
                es_v[i as int].0 == es@[i as int].0@,
                known ==> valid_mb_key(es_v[i as int].0),
                !known ==> forall|p: int|
                    0 <= p < t ==> es_v[i as int].0 != #[trigger] crate::fstree::string_views(
                        names@,
                    )[p],
            decreases 16 - t,
        {
            proof {
                assert(crate::fstree::string_views(names@)[t as int] == names@[t as int]@);
            }
            if es[i].0.eq(&names[t]) {
                known = true;
            }
            t = t + 1;
        }
        if !known {
            proof {
                assert forall|p: int| 0 <= p < 16 implies es_v[i as int].0
                    != #[trigger] crate::fstree::string_views(names@)[p] by {}
                assert(!valid_mb_key(es_v[i as int].0));
            }
            return Err(DecodeError::Malformed);
        }
        // repeated name?
        let mut j: usize = 0;
        while j < i
            invariant
                j <= i < en,
                en == es@.len(),
                es_v == dict_views(es@),
                es_v.len() == en,
                forall|p: int| 0 <= p < j ==> (#[trigger] es_v[p]).0 != es_v[i as int].0,
            decreases i - j,
        {
            proof {
                assert(es_v[j as int] == (es@[j as int].0@, pv(es@[j as int].1)));
                assert(es_v[i as int] == (es@[i as int].0@, pv(es@[i as int].1)));
            }
            if es[j].0.eq(&es[i].0) {
                return Err(DecodeError::Malformed);
            }
            j = j + 1;
        }
        i = i + 1;
    }

    // The class signature.
    let mb_classes: Vec<String> = vec![String::from_str("MBFile"), String::from_str("NSObject")];
    proof {
        assert(crate::fstree::string_views(mb_classes@) =~= seq!["MBFile"@, "NSObject"@]);
    }
    if !check_class(&objs, &es, &String::from_str("MBFile"), &mb_classes) {
        return Err(DecodeError::Malformed);
    }

    // Required integer fields.
    let last_modified = match get_req_u64(&es, &String::from_str("LastModified")) {
        Some(u) => u,
        None => {
            return Err(DecodeError::Malformed);
        },
    };
    let flags = match get_req_u64(&es, &String::from_str("Flags")) {
        Some(u) => u,
        None => {
            return Err(DecodeError::Malformed);
        },
    };
    let last_status_change = match get_req_u64(&es, &String::from_str("LastStatusChange")) {
        Some(u) => u,
        None => {
            return Err(DecodeError::Malformed);
        },
    };
    let birth = match get_req_u64(&es, &String::from_str("Birth")) {
        Some(u) => u,
        None => {
            return Err(DecodeError::Malformed);
        },
    };
    let size = match get_req_u64(&es, &String::from_str("Size")) {
        Some(u) => u,
        None => {
            return Err(DecodeError::Malformed);
        },
    };
    let inode_number = match get_req_u64(&es, &String::from_str("InodeNumber")) {
        Some(u) => u,
        None => {
            return Err(DecodeError::Malformed);
        },
    };
    let mode = match get_req_u64(&es, &String::from_str("Mode")) {
        Some(u) => u,
        None => {
            return Err(DecodeError::Malformed);
        },
    };
    let protection_class = match get_req_u64(&es, &String::from_str("ProtectionClass")) {
        Some(u) => u,
        None => {
            return Err(DecodeError::Malformed);
        },
    };
    let group_id = match get_req_i64(&es, &String::from_str("GroupID")) {
        Some(u) => u,
        None => {
            return Err(DecodeError::Malformed);
        },
    };
    let user_id = match get_req_i64(&es, &String::from_str("UserID")) {
        Some(u) => u,
        None => {
            return Err(DecodeError::Malformed);
        },
    };

    // The path, and the optional string, data and key fields.
    let relative_path = match dict_find(&es, &String::from_str("RelativePath")) {
        Some(i2) => match get_str(&objs, &es[i2].1) {
            Some(s) => s,
            None => {
                return Err(DecodeError::Malformed);
            },
        },
        None => {
            return Err(DecodeError::Malformed);
        },
    };
    let target: Option<String> = match dict_find(&es, &String::from_str("Target")) {
        Some(i2) => match get_str(&objs, &es[i2].1) {
            Some(s) => Some(s),
            None => {
                return Err(DecodeError::Malformed);
            },
        },
        None => None,
    };
    let digest: Option<Vec<u8>> = match dict_find(&es, &String::from_str("Digest")) {
        Some(i2) => match get_data(&objs, &es[i2].1) {
            Some(d) => Some(d),
            None => {
                return Err(DecodeError::Malformed);
            },
        },
        None => None,
    };
    let nsmd_classes: Vec<String> = vec![
        String::from_str("NSMutableData"),
        String::from_str("NSData"),
        String::from_str("NSObject"),
    ];
    proof {
        assert(crate::fstree::string_views(nsmd_classes@) =~= seq![
            "NSMutableData"@, "NSData"@, "NSObject"@,
        ]);
    }
    let encryption_key: Option<Vec<u8>> = match dict_find(&es, &String::from_str("EncryptionKey")) {
        Some(i2) => {
            let kv = match deref_value(&objs, &es[i2].1) {
                Some(w) => w,
                None => {
                    return Err(DecodeError::Malformed);
                },
            };
            let ke = match value_dict_entries(kv) {
                Some(ke) => ke,
                None => {
                    return Err(DecodeError::Malformed);
                },
            };
            if !check_class(&objs, &ke, &String::from_str("NSMutableData"), &nsmd_classes) {
                return Err(DecodeError::Malformed);
            }
            match dict_find(&ke, &String::from_str("NS.data")) {
                Some(j2) => match get_data(&objs, &ke[j2].1) {
                    Some(d) => Some(d),
                    None => {
                        return Err(DecodeError::Malformed);
                    },
                },
                None => {
                    return Err(DecodeError::Malformed);
                },
            }
        },
        None => None,
    };
    let extended_attributes: Option<XattrPayload> = match dict_find(
        &es,
        &String::from_str("ExtendedAttributes"),
    ) {
        Some(i2) => {
            let bytes = match get_data(&objs, &es[i2].1) {
                Some(d) => d,
                None => {
                    return Err(DecodeError::Malformed);
                },
            };
            let nested = match parse_value(bytes.as_slice()) {
                Some(p) => p,
                None => {
                    return Err(DecodeError::Malformed);
                },
            };
            Some(convert_xattrs(&nested))
        },
        None => None,
    };

    let m = MBFile {
        size,
        birth,
        last_modified,
        last_status_change,
        flags,
        user_id,
        group_id,
        inode_number,
        mode,
        protection_class,
        relative_path,
        target,
        digest,
        encryption_key,
        extended_attributes,
    };
    proof {
        assert(mb_ok(objs_v, es_v));
        assert(mb_view(m) == mb_extract(objs_v, es_v));
    }
    Ok(m)
}

} // verus!
