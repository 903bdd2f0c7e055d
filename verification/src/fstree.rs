//! The manifest inode tree.  A flat table of inodes indexed from 1
//! (index 0 is reserved), whose root's children are the backup's
//! domains; every folder holds a list of named children, each pointing
//! at a higher index.  Files are inserted parent-first; empty folders
//! are pruned afterwards.

use vstd::prelude::*;
use crate::hexid::{RawId, all_hex, bytes_of_hex};

verus! {

/// The kind of a backed-up entity.
#[derive(Clone, Copy, Debug, PartialEq, Eq, Structural)]
pub enum FileType {
    File,
    Folder,
}

/// The file type denoted by the manifest's flags column: 1 is a file,
/// 2 a folder, anything else is no valid type.
pub open spec fn type_from_flags(value: i64) -> Option<FileType> {
    if value == 1 {
        Some(FileType::File)
    } else if value == 2 {
        Some(FileType::Folder)
    } else {
        None
    }
}

impl FileType {
    /// Decodes the manifest's flags column.
    pub fn from_flags(value: i64) -> (r: Option<FileType>)
        ensures
            r == type_from_flags(value),
    {
        if value == 1 {
            Some(FileType::File)
        } else if value == 2 {
            Some(FileType::Folder)
        } else {
            None
        }
    }
}

/// One inode: its content identifier, its kind, and, for folders, the
/// named children in insertion order.
pub struct Inode {
    pub id: RawId,
    pub ftype: FileType,
    pub children: Option<Vec<(String, usize)>>,
}

/// The filesystem tree as a flat inode table.
pub struct FS {
    pub backing: Vec<Inode>,
}

/// The name/index pairs of a children list, with names as character
/// sequences.
pub open spec fn kid_views(s: Seq<(String, usize)>) -> Seq<(Seq<char>, int)> {
    s.map_values(|e: (String, usize)| (e.0@, e.1 as int))
}

/// The children of inode `i`, as name/index pairs.
pub open spec fn kids(b: Seq<Inode>, i: int) -> Seq<(Seq<char>, int)> {
    kid_views(b[i].children.unwrap()@)
}

/// Whether the inode table is well formed: the root at index 1 is a
/// folder, exactly the folders have children lists, every child index
/// points past its parent and into the table, and no folder names two
/// children alike.
pub open spec fn wf(b: Seq<Inode>) -> bool {
    &&& b.len() >= 2
    &&& b[1].ftype == FileType::Folder
    &&& forall|i: int|
        0 <= i < b.len() ==> ((#[trigger] b[i]).ftype == FileType::Folder <==> b[i].children is Some)
    &&& forall|i: int, j: int|
        0 <= i < b.len() && b[i].children is Some && 0 <= j < kids(b, i).len() ==> i < (
        #[trigger] kids(b, i)[j]).1 < b.len()
    &&& forall|i: int, j1: int, j2: int|
        0 <= i < b.len() && b[i].children is Some && 0 <= j1 < kids(b, i).len() && 0 <= j2 < kids(
            b,
            i,
        ).len() && j1 != j2 ==> (#[trigger] kids(b, i)[j1]).0 != (#[trigger] kids(b, i)[j2]).0
}

/// The index stored for `name` in a children list; the first match.
pub open spec fn lookup_in(children: Seq<(Seq<char>, int)>, name: Seq<char>) -> Option<int>
    decreases children.len(),
{
    if children.len() == 0 {
        None
    } else if children[0].0 == name {
        Some(children[0].1)
    } else {
        lookup_in(children.skip(1), name)
    }
}

/// Walks `names` from inode `i` down the children lists.
pub open spec fn resolve_at(b: Seq<Inode>, i: int, names: Seq<Seq<char>>) -> Option<int>
    decreases names.len(),
{
    if names.len() == 0 {
        Some(i)
    } else if !(0 <= i < b.len()) || b[i].children is None {
        None
    } else {
        match lookup_in(kids(b, i), names[0]) {
            None => None,
            Some(c) => resolve_at(b, c, names.skip(1)),
        }
    }
}

/// The segments of a path split on `/`.  The empty path has one empty
/// segment.
pub open spec fn split_path(s: Seq<char>) -> Seq<Seq<char>>
    decreases s.len(),
{
    if s.len() == 0 {
        seq![Seq::<char>::empty()]
    } else {
        let r = split_path(s.skip(1));
        if s[0] == '/' {
            seq![Seq::<char>::empty()] + r
        } else {
            seq![seq![s[0]] + r[0]] + r.skip(1)
        }
    }
}

proof fn lemma_split_len(s: Seq<char>)
    ensures
        split_path(s).len() >= 1,
    decreases s.len(),
{
    if s.len() > 0 {
        lemma_split_len(s.skip(1));
    }
}

proof fn lemma_split_no_slash(s: Seq<char>)
    requires
        forall|i: int| 0 <= i < s.len() ==> s[i] != '/',
    ensures
        split_path(s) == seq![s],
    decreases s.len(),
{
    if s.len() == 0 {
        assert(Seq::<char>::empty() =~= s);
    } else {
        lemma_split_no_slash(s.skip(1));
        lemma_split_len(s.skip(1));
        assert(seq![s[0]] + s.skip(1) =~= s);
        assert(split_path(s) =~= seq![s]);
    }
}

proof fn lemma_split_at_slash(s: Seq<char>, j: int)
    requires
        0 <= j < s.len(),
        s[j] == '/',
        forall|i: int| 0 <= i < j ==> s[i] != '/',
    ensures
        split_path(s) == seq![s.take(j)] + split_path(s.skip(j + 1)),
    decreases j,
{
    if j == 0 {
        assert(s.take(0) =~= Seq::<char>::empty());
        assert(s.skip(1) =~= s.skip(j + 1));
    } else {
        lemma_split_at_slash(s.skip(1), j - 1);
        lemma_split_len(s.skip(1));
        let r = split_path(s.skip(1));
        assert(s.skip(1).take(j - 1) =~= s.subrange(1, j));
        assert(r[0] == s.subrange(1, j));
        assert(seq![s[0]] + s.subrange(1, j) =~= s.take(j));
        assert(s.skip(1).skip(j) =~= s.skip(j + 1));
        assert(r.skip(1) == split_path(s.skip(j + 1)));
        assert(split_path(s) =~= seq![s.take(j)] + split_path(s.skip(j + 1)));
    }
}

/// The views of a vector of strings.
pub open spec fn string_views(s: Seq<String>) -> Seq<Seq<char>> {
    s.map_values(|x: String| x@)
}

/// Splits a path on `/` into its segments.
#[verifier::loop_isolation(false)]
pub fn split_path_exec(s: &str) -> (r: Vec<String>)
    ensures
        string_views(r@) == split_path(s@),
{
    let n = s.unicode_len();
    let mut segs: Vec<String> = Vec::new();
    let mut start: usize = 0;
    let mut i: usize = 0;
    proof {
        assert(s@.skip(0) =~= s@);
    }
    while i < n
        invariant
            start <= i <= n,
            forall|k: int| start <= k < i ==> s@[k] != '/',
            split_path(s@) == string_views(segs@) + split_path(s@.skip(start as int)),
        decreases n - i,
    {
        if s.get_char(i) == '/' {
            let seg = String::from_str(s.substring_char(start, i));
            proof {
                let tail = s@.skip(start as int);
                lemma_split_at_slash(tail, i - start);
                assert(tail.take(i - start) =~= s@.subrange(start as int, i as int));
                assert(tail.skip(i - start + 1) =~= s@.skip(i as int + 1));
                assert(string_views(segs@.push(seg)) =~= string_views(segs@) + seq![seg@]);
                assert((string_views(segs@) + seq![seg@]) + split_path(s@.skip(i as int + 1)) =~= string_views(
                    segs@,
                ) + (seq![seg@] + split_path(s@.skip(i as int + 1))));
            }
            segs.push(seg);
            start = i + 1;
        }
        i = i + 1;
    }
    let seg = String::from_str(s.substring_char(start, n));
    proof {
        let tail = s@.skip(start as int);
        lemma_split_no_slash(tail);
        assert(tail =~= s@.subrange(start as int, n as int));
        assert(string_views(segs@.push(seg)) =~= string_views(segs@) + seq![seg@]);
        assert(string_views(segs@) + seq![tail] =~= string_views(segs@.push(seg)));
    }
    segs.push(seg);
    segs
}

/// The chain of folder names between the root and a new entry: the
/// domain, then every path segment but the last.  A row whose path is
/// empty is the domain itself, directly under the root.
pub open spec fn parent_chain(domain: Seq<char>, path: Seq<char>) -> Seq<Seq<char>> {
    if path.len() == 0 {
        Seq::empty()
    } else {
        seq![domain] + split_path(path).drop_last()
    }
}

/// The name under which a new entry is inserted.
pub open spec fn leaf_name(domain: Seq<char>, path: Seq<char>) -> Seq<char> {
    if path.len() == 0 {
        domain
    } else {
        split_path(path).last()
    }
}

/// How a table after one insertion relates to the table before it:
/// the parent folder at `p` did not yet name `leaf` and gains exactly
/// the entry `(leaf, old length)`; the new inode carries the given
/// identifier and kind, with an empty children list exactly for a
/// folder; every other inode is untouched.
pub open spec fn insert_rel(
    b0: Seq<Inode>,
    b1: Seq<Inode>,
    p: int,
    leaf: Seq<char>,
    idb: Seq<u8>,
    ftype: FileType,
) -> bool {
    &&& 0 <= p < b0.len()
    &&& b0[p].children is Some
    &&& lookup_in(kids(b0, p), leaf) is None
    &&& b1.len() == b0.len() + 1
    &&& b1[b0.len() as int].id.0@ == idb
    &&& b1[b0.len() as int].ftype == ftype
    &&& (ftype == FileType::Folder ==> (b1[b0.len() as int].children matches Some(c) && c@.len()
        == 0))
    &&& (ftype == FileType::File ==> b1[b0.len() as int].children is None)
    &&& kids(b1, p) == kids(b0, p).push((leaf, b0.len() as int))
    &&& b1[p].ftype == b0[p].ftype && b1[p].id == b0[p].id
    &&& forall|q: int| 0 <= q < b0.len() && q != p ==> b1[q] == b0[q]
}

/// Why a row could not be inserted.
#[derive(Clone, Copy, Debug, PartialEq, Eq, Structural)]
pub enum InsertError {
    BadId,
    MissingParent,
    Duplicate,
}

/// Looks `name` up in a children list.
pub fn find_child(children: &Vec<(String, usize)>, name: &String) -> (r: Option<usize>)
    ensures
        match r {
            Some(c) => lookup_in(kid_views(children@), name@) == Some(c as int),
            None => lookup_in(kid_views(children@), name@) is None,
        },
{
    let n = children.len();
    proof {
        assert(kid_views(children@).skip(0) =~= kid_views(children@));
    }
    let mut i: usize = 0;
    while i < n
        invariant
            i <= n,
            n == children@.len(),
            kid_views(children@).len() == n,
            lookup_in(kid_views(children@), name@) == lookup_in(
                kid_views(children@).skip(i as int),
                name@,
            ),
            forall|j: int|
                0 <= j < n ==> #[trigger] kid_views(children@)[j] == (
                    children@[j].0@,
                    children@[j].1 as int,
                ),
        decreases n - i,
    {
        proof {
            assert(kid_views(children@).skip(i as int)[0] == kid_views(children@)[i as int]);
        }
        if children[i].0.eq(name) {
            return Some(children[i].1);
        }
        proof {
            assert(kid_views(children@).skip(i as int).skip(1) =~= kid_views(children@).skip(
                i as int + 1,
            ));
        }
        i = i + 1;
    }
    proof {
        assert(kid_views(children@).skip(n as int) =~= Seq::<(Seq<char>, int)>::empty());
    }
    None
}

impl FS {
    /// A table holding only the reserved inode 0 and the empty root
    /// folder at index 1.
    pub fn new() -> (r: FS)
        ensures
            wf(r.backing@),
            r.backing@.len() == 2,
            r.backing@[1].children matches Some(c) && c@.len() == 0,
    {
        let mut backing: Vec<Inode> = Vec::new();
        backing.push(Inode { id: RawId([0u8; 20]), ftype: FileType::File, children: None });
        backing.push(
            Inode { id: RawId([0u8; 20]), ftype: FileType::Folder, children: Some(Vec::new()) },
        );
        let r = FS { backing };
        proof {
            assert(kids(r.backing@, 1) =~= Seq::<(Seq<char>, int)>::empty());
        }
        r
    }

    /// Inserts one manifest row.  The parent folder named by the
    /// domain and the path's leading segments must already exist; the
    /// new inode is appended to the table and recorded under the
    /// path's last segment (or under the domain itself for an empty
    /// path).  The table is otherwise unchanged.  Each error comes
    /// exactly when stated: `BadId` for an identifier that is not 40
    /// hex characters, `MissingParent` when the chain does not lead to
    /// a folder, `Duplicate` when the name is already taken.
    #[verifier::loop_isolation(false)]
    #[verifier::rlimit(60)]
    pub fn insert_file(&mut self, domain: &str, path: &str, id: &str, ftype: FileType) -> (r:
        Result<(), InsertError>)
        requires
            wf(old(self).backing@),
        ensures
            wf(final(self).backing@),
            match r {
                Ok(()) => {
                    let b0 = old(self).backing@;
                    let b1 = final(self).backing@;
                    let chain = parent_chain(domain@, path@);
                    let leaf = leaf_name(domain@, path@);
                    &&& id@.len() == 40 && all_hex(id@)
                    &&& resolve_at(b0, 1, chain) matches Some(p)
                    &&& insert_rel(
                        b0,
                        b1,
                        resolve_at(b0, 1, chain).unwrap(),
                        leaf,
                        bytes_of_hex(id@),
                        ftype,
                    )
                },
                Err(InsertError::BadId) => {
                    &&& !(id@.len() == 40 && all_hex(id@))
                    &&& final(self).backing@ == old(self).backing@
                },
                Err(InsertError::MissingParent) => {
                    let b0 = old(self).backing@;
                    let chain = parent_chain(domain@, path@);
                    &&& id@.len() == 40 && all_hex(id@)
                    &&& (resolve_at(b0, 1, chain) is None || b0[resolve_at(
                        b0,
                        1,
                        chain,
                    ).unwrap()].children is None)
                    &&& final(self).backing@ == old(self).backing@
                },
                Err(InsertError::Duplicate) => {
                    let b0 = old(self).backing@;
                    let chain = parent_chain(domain@, path@);
                    let leaf = leaf_name(domain@, path@);
                    &&& id@.len() == 40 && all_hex(id@)
                    &&& resolve_at(b0, 1, chain) matches Some(p)
                    &&& b0[resolve_at(b0, 1, chain).unwrap()].children is Some
                    &&& lookup_in(kids(b0, resolve_at(b0, 1, chain).unwrap()), leaf) is Some
                    &&& final(self).backing@ == old(self).backing@
                },
            },
    {
        let ghost b0 = self.backing@;
        let raw = match crate::hexid::parse_hex_id(id) {
            Some(raw) => raw,
            None => {
                return Err(InsertError::BadId);
            },
        };
        let ghost chain = parent_chain(domain@, path@);
        let ghost leaf = leaf_name(domain@, path@);

        // Resolve the parent folder, walking the domain and then every
        // path segment but the last.
        let mut parent: usize = 1;
        let leaf_string: String;
        if path.unicode_len() == 0 {
            leaf_string = String::from_str(domain);
            proof {
                assert(chain =~= Seq::<Seq<char>>::empty());
                assert(resolve_at(b0, 1, chain) == Some(1int));
            }
        } else {
            let segs = split_path_exec(path);
            let k = segs.len();
            proof {
                lemma_split_len(path@);
                assert(string_views(segs@).len() == k);
                assert(chain =~= seq![domain@] + split_path(path@).drop_last());
                assert(chain.len() == k);
            }
            let domain_string = String::from_str(domain);
            let mut step: usize = 0;
            proof {
                assert(chain.skip(0) =~= chain);
            }
            while step < k
                invariant
                    0 <= step <= k,
                    k == segs@.len(),
                    chain.len() == k,
                    wf(b0),
                    self.backing@ == b0,
                    0 <= parent < b0.len(),
                    domain_string@ == domain@,
                    chain == seq![domain@] + split_path(path@).drop_last(),
                    string_views(segs@) == split_path(path@),
                    resolve_at(b0, 1, chain) == resolve_at(b0, parent as int, chain.skip(step as int)),
                    forall|q: int| 0 <= q < k ==> #[trigger] string_views(segs@)[q] == segs@[q]@,
                decreases k - step,
            {
                let name: &String = if step == 0 {
                    &domain_string
                } else {
                    &segs[step - 1]
                };
                proof {
                    assert(chain.skip(step as int)[0] == chain[step as int]);
                    if step == 0 {
                        assert(chain[0] == domain@);
                    } else {
                        assert(chain[step as int] == split_path(path@).drop_last()[step as int - 1]);
                        assert(split_path(path@).drop_last()[step as int - 1] == split_path(
                            path@,
                        )[step as int - 1]);
                    }
                    assert(name@ == chain[step as int]);
                }
                let next = match &self.backing[parent].children {
                    Some(c) => find_child(c, name),
                    None => {
                        proof {
                            assert(resolve_at(b0, parent as int, chain.skip(step as int)) is None);
                        }
                        return Err(InsertError::MissingParent);
                    },
                };
                match next {
                    Some(c) => {
                        proof {
                            lemma_lookup_some_contains(kids(b0, parent as int), name@, c as int);
                            assert(0 <= c < b0.len());
                            assert(chain.skip(step as int).skip(1) =~= chain.skip(step as int + 1));
                            assert(resolve_at(b0, parent as int, chain.skip(step as int))
                                == resolve_at(b0, c as int, chain.skip(step as int + 1)));
                        }
                        parent = c;
                    },
                    None => {
                        proof {
                            assert(resolve_at(b0, parent as int, chain.skip(step as int)) is None);
                        }
                        return Err(InsertError::MissingParent);
                    },
                }
                step = step + 1;
            }
            proof {
                assert(chain.skip(k as int) =~= Seq::<Seq<char>>::empty());
                assert(resolve_at(b0, 1, chain) == Some(parent as int));
                assert(split_path(path@).last() == string_views(segs@)[k - 1]);
            }
            leaf_string = segs[k - 1].clone();
            proof {
                assert(leaf_string@ == leaf);
            }
        }
        proof {
            assert(resolve_at(b0, 1, chain) == Some(parent as int));
        }

        // The parent must be a folder, and the name must be free.
        let new_index = self.backing.len();
        let dup = match &self.backing[parent].children {
            Some(c) => find_child(c, &leaf_string),
            None => {
                return Err(InsertError::MissingParent);
            },
        };
        if dup.is_some() {
            return Err(InsertError::Duplicate);
        }
        match &mut self.backing[parent].children {
            Some(c) => {
                c.push((leaf_string, new_index));
            },
            None => {
                return Err(InsertError::MissingParent);
            },
        }
        self.backing.push(
            Inode {
                id: raw,
                ftype,
                children: match ftype {
                    FileType::Folder => Some(Vec::new()),
                    FileType::File => None,
                },
            },
        );
        proof {
            let b1 = self.backing@;
            assert(kids(b1, parent as int) =~= kids(b0, parent as int).push(
                (leaf, b0.len() as int),
            ));
            if ftype == FileType::Folder {
                assert(kids(b1, b0.len() as int) =~= Seq::<(Seq<char>, int)>::empty());
            }
            assert forall|i: int, j: int|
                0 <= i < b1.len() && b1[i].children is Some && 0 <= j < kids(b1, i).len() implies i
                < (#[trigger] kids(b1, i)[j]).1 < b1.len() by {
                if i < b0.len() && i != parent as int {
                    assert(b1[i] == b0[i]);
                    assert(kids(b1, i) == kids(b0, i));
                }
            }
            assert forall|i: int, j1: int, j2: int|
                0 <= i < b1.len() && b1[i].children is Some && 0 <= j1 < kids(b1, i).len() && 0
                <= j2 < kids(b1, i).len() && j1 != j2 implies (#[trigger] kids(b1, i)[j1]).0 != (
            #[trigger] kids(b1, i)[j2]).0 by {
                if i < b0.len() && i != parent as int {
                    assert(b1[i] == b0[i]);
                    assert(kids(b1, i) == kids(b0, i));
                } else if i == parent as int {
                    assert(lookup_in(kids(b0, parent as int), leaf) is None);
                    lemma_lookup_none_absent(kids(b0, parent as int), leaf);
                }
            }
        }
        Ok(())
    }
}

/// A name that `lookup_in` finds is paired with its index in the list.
pub proof fn lemma_lookup_some_contains(children: Seq<(Seq<char>, int)>, name: Seq<char>, c: int)
    requires
        lookup_in(children, name) == Some(c),
    ensures
        exists|j: int| 0 <= j < children.len() && #[trigger] children[j] == (name, c),
    decreases children.len(),
{
    if children.len() > 0 {
        if children[0].0 == name {
            assert(children[0] == (name, c));
        } else {
            lemma_lookup_some_contains(children.skip(1), name, c);
            let j = choose|j: int|
                0 <= j < children.skip(1).len() && #[trigger] children.skip(1)[j] == (name, c);
            assert(children[j + 1] == (name, c));
        }
    }
}

/// A name that `lookup_in` misses appears nowhere in the list.
proof fn lemma_lookup_none_absent(children: Seq<(Seq<char>, int)>, name: Seq<char>)
    requires
        lookup_in(children, name) is None,
    ensures
        forall|j: int| 0 <= j < children.len() ==> (#[trigger] children[j]).0 != name,
    decreases children.len(),
{
    if children.len() > 0 {
        lemma_lookup_none_absent(children.skip(1), name);
        assert forall|j: int| 0 <= j < children.len() implies (#[trigger] children[j]).0 != name by {
            if j > 0 {
                assert(children.skip(1)[j - 1] == children[j]);
            }
        }
    }
}

} // verus!

verus! {

/// Whether inode `v` survives pruning: files always do; a folder does
/// exactly when some child of it does.
pub open spec fn keep(b: Seq<Inode>, v: int) -> bool
    decreases b.len() - v,
{
    if !(0 <= v < b.len()) {
        false
    } else if b[v].children is None {
        true
    } else {
        exists|j: int|
            0 <= j < kids(b, v).len() && v < (#[trigger] kids(b, v)[j]).1 < b.len() && keep(
                b,
                kids(b, v)[j].1,
            )
    }
}

/// How a pruned table relates to the table it came from: same length,
/// same identifiers and kinds, and every folder's children filtered
/// down to the kept ones, in order.
pub open spec fn pruned_rel(b0: Seq<Inode>, b1: Seq<Inode>) -> bool {
    &&& b1.len() == b0.len()
    &&& forall|i: int|
        0 <= i < b0.len() ==> {
            &&& (#[trigger] b1[i]).id.0@ == b0[i].id.0@
            &&& b1[i].ftype == b0[i].ftype
            &&& (b1[i].children is Some <==> b0[i].children is Some)
            &&& (b0[i].children is Some ==> kids(b1, i) == kids(b0, i).filter(
                |e: (Seq<char>, int)| keep(b0, e.1),
            ))
        }
}

proof fn lemma_filter_subset<A>(s: Seq<A>, p: spec_fn(A) -> bool)
    ensures
        forall|j: int|
            0 <= j < s.filter(p).len() ==> exists|i: int|
                0 <= i < s.len() && s[i] == #[trigger] s.filter(p)[j],
    decreases s.len(),
{
    reveal(Seq::filter);
    if s.len() > 0 {
        lemma_filter_subset(s.drop_last(), p);
        assert forall|j: int| 0 <= j < s.filter(p).len() implies exists|i: int|
            0 <= i < s.len() && s[i] == #[trigger] s.filter(p)[j] by {
            if j < s.drop_last().filter(p).len() {
                let i = choose|i: int|
                    0 <= i < s.drop_last().len() && s.drop_last()[i] == #[trigger] s.drop_last().filter(p)[j];
                assert(s[i] == s.filter(p)[j]);
            } else {
                assert(s[s.len() - 1] == s.filter(p)[j]);
            }
        }
    }
}

proof fn lemma_filter_all_true<A>(s: Seq<A>, p: spec_fn(A) -> bool)
    requires
        forall|i: int| 0 <= i < s.len() ==> p(#[trigger] s[i]),
    ensures
        s.filter(p) == s,
    decreases s.len(),
{
    reveal(Seq::filter);
    if s.len() > 0 {
        lemma_filter_all_true(s.drop_last(), p);
        assert(s.drop_last().filter(p).push(s.last()) =~= s);
    } else {
        assert(s.filter(p) =~= s);
    }
}

proof fn lemma_filter_congruent<A>(s: Seq<A>, p: spec_fn(A) -> bool, q: spec_fn(A) -> bool)
    requires
        forall|i: int| 0 <= i < s.len() ==> p(#[trigger] s[i]) == q(s[i]),
    ensures
        s.filter(p) == s.filter(q),
    decreases s.len(),
{
    reveal(Seq::filter);
    if s.len() > 0 {
        lemma_filter_congruent(s.drop_last(), p, q);
    }
}

proof fn lemma_filter_unique_names(s: Seq<(Seq<char>, int)>, p: spec_fn((Seq<char>, int)) -> bool)
    requires
        forall|j1: int, j2: int|
            0 <= j1 < s.len() && 0 <= j2 < s.len() && j1 != j2 ==> (#[trigger] s[j1]).0 != (
            #[trigger] s[j2]).0,
    ensures
        forall|j1: int, j2: int|
            0 <= j1 < s.filter(p).len() && 0 <= j2 < s.filter(p).len() && j1 != j2 ==> (
            #[trigger] s.filter(p)[j1]).0 != (#[trigger] s.filter(p)[j2]).0,
    decreases s.len(),
{
    reveal(Seq::filter);
    if s.len() > 0 {
        lemma_filter_unique_names(s.drop_last(), p);
        lemma_filter_subset(s.drop_last(), p);
        let f = s.filter(p);
        let g = s.drop_last().filter(p);
        assert forall|j1: int, j2: int|
            0 <= j1 < f.len() && 0 <= j2 < f.len() && j1 != j2 implies (#[trigger] f[j1]).0 != (
        #[trigger] f[j2]).0 by {
            if j1 < g.len() && j2 < g.len() {
                assert(f[j1] == g[j1] && f[j2] == g[j2]);
            } else if j1 < g.len() {
                // j2 names the appended last element
                let i = choose|i: int| 0 <= i < s.drop_last().len() && s.drop_last()[i] == g[j1];
                assert(s[i] == g[j1]);
                assert(f[j2] == s.last());
                assert(s[s.len() - 1].0 != s[i].0);
            } else if j2 < g.len() {
                let i = choose|i: int| 0 <= i < s.drop_last().len() && s.drop_last()[i] == g[j2];
                assert(s[i] == g[j2]);
                assert(f[j1] == s.last());
                assert(s[s.len() - 1].0 != s[i].0);
            }
        }
    }
}

impl FS {
    /// Prunes empty folders: every folder's children list is filtered
    /// down to the entries that lead somewhere, cascading bottom-up, so
    /// that afterwards no reachable folder but the root is empty.
    #[verifier::loop_isolation(false)]
    #[verifier::rlimit(60)]
    pub fn remove_empty_directories(&mut self)
        requires
            wf(old(self).backing@),
        ensures
            wf(final(self).backing@),
            pruned_rel(old(self).backing@, final(self).backing@),
    {
        let ghost b0 = self.backing@;
        let n = self.backing.len();

        // Mark pass, bottom-up: a file is kept; a folder is kept when
        // one of its children (all at higher indices) is.
        let mut marks: Vec<bool> = Vec::new();
        let mut f: usize = 0;
        while f < n
            invariant
                f <= n,
                marks@.len() == f,
            decreases n - f,
        {
            marks.push(false);
            f = f + 1;
        }
        let mut v: usize = n;
        while v > 0
            invariant
                v <= n,
                n == b0.len(),
                self.backing@ == b0,
                marks@.len() == n,
                forall|q: int| v <= q < n ==> marks@[q] == keep(b0, q),
            decreases v,
        {
            v = v - 1;
            let m: bool;
            match &self.backing[v].children {
                None => {
                    m = true;
                },
                Some(c) => {
                    let ghost ks = kids(b0, v as int);
                    let k = c.len();
                    proof {
                        assert(ks.len() == k);
                        assert(forall|j: int|
                            0 <= j < k ==> #[trigger] ks[j] == (c@[j].0@, c@[j].1 as int));
                    }
                    let mut any = false;
                    let mut j: usize = 0;
                    while j < k
                        invariant
                            j <= k,
                            any == exists|jj: int|
                                0 <= jj < j && v < (#[trigger] ks[jj]).1 < n && keep(b0, ks[jj].1),
                        decreases k - j,
                    {
                        let ci = c[j].1;
                        proof {
                            assert(ks[j as int] == (c@[j as int].0@, c@[j as int].1 as int));
                            assert(v < ci < n);
                        }
                        if marks[ci] {
                            proof {
                                assert(v < (ks[j as int]).1 < n && keep(b0, ks[j as int].1));
                            }
                            any = true;
                        }
                        j = j + 1;
                    }
                    m = any;
                },
            }
            marks[v] = m;
            proof {
                assert(m == keep(b0, v as int));
            }
        }

        // Sweep pass: rebuild each folder's children from the marks.
        let mut i: usize = 0;
        while i < n
            invariant
                i <= n,
                n == b0.len(),
                self.backing@.len() == n,
                marks@.len() == n,
                forall|q: int| 0 <= q < n ==> marks@[q] == keep(b0, q),
                forall|q: int| i <= q < n ==> self.backing@[q] == b0[q],
                forall|q: int|
                    0 <= q < i ==> {
                        &&& (#[trigger] self.backing@[q]).id == b0[q].id
                        &&& self.backing@[q].ftype == b0[q].ftype
                        &&& (self.backing@[q].children is Some <==> b0[q].children is Some)
                        &&& (b0[q].children is Some ==> kids(self.backing@, q) == kids(
                            b0,
                            q,
                        ).filter(|e: (Seq<char>, int)| keep(b0, e.1)))
                    },
            decreases n - i,
        {
            let ghost pred = |e: (Seq<char>, int)| keep(b0, e.1);
            let has = match &self.backing[i].children {
                Some(_) => true,
                None => false,
            };
            if has {
                let ghost ch0 = b0[i as int].children.unwrap()@;
                let k = match &self.backing[i].children {
                    Some(c) => c.len(),
                    None => 0,
                };
                proof {
                    assert(kids(b0, i as int) == kid_views(ch0));
                    assert(kid_views(ch0).len() == k);
                    assert(kid_views(ch0.take(0)) =~= Seq::<(Seq<char>, int)>::empty());
                    reveal(Seq::filter);
                }
                let mut dst: Vec<(String, usize)> = Vec::new();
                let mut j: usize = 0;
                while j < k
                    invariant
                        j <= k,
                        i < n,
                        n == b0.len(),
                        self.backing@[i as int] == b0[i as int],
                        b0[i as int].children is Some,
                        ch0 == b0[i as int].children.unwrap()@,
                        k == ch0.len(),
                        marks@.len() == n,
                        forall|q: int| 0 <= q < n ==> marks@[q] == keep(b0, q),
                        kids(b0, i as int) == kid_views(ch0),
                        forall|jj: int|
                            0 <= jj < k ==> i < (#[trigger] kids(b0, i as int)[jj]).1 < n,
                        kid_views(dst@) == kid_views(ch0.take(j as int)).filter(pred),
                    decreases k - j,
                {
                    let e: (String, usize) = match &self.backing[i].children {
                        Some(c) => (c[j].0.clone(), c[j].1),
                        None => (String::new(), 0),
                    };
                    proof {
                        assert(kid_views(ch0)[j as int] == (ch0[j as int].0@, ch0[j as int].1 as int));
                        assert(kids(b0, i as int)[j as int] == kid_views(ch0)[j as int]);
                        assert(e.0 == ch0[j as int].0 && e.1 == ch0[j as int].1);
                        assert(i < e.1 < n);
                    }
                    let keep_it = marks[e.1];
                    proof {
                        reveal(Seq::filter);
                        let t1 = kid_views(ch0.take(j as int + 1));
                        assert(t1.drop_last() =~= kid_views(ch0.take(j as int)));
                        assert(t1.last() == (ch0[j as int].0@, ch0[j as int].1 as int));
                        assert(pred(t1.last()) == keep(b0, ch0[j as int].1 as int));
                        if keep_it {
                            assert(kid_views(dst@.push((e.0, e.1))) =~= kid_views(dst@).push(
                                t1.last(),
                            ));
                        }
                    }
                    if keep_it {
                        dst.push(e);
                    }
                    j = j + 1;
                }
                proof {
                    assert(ch0.take(k as int) =~= ch0);
                }
                self.backing[i].children = Some(dst);
            }
            i = i + 1;
        }
        proof {
            let b1 = self.backing@;
            assert(pruned_rel(b0, b1));
            assert forall|q: int, j: int|
                0 <= q < b1.len() && b1[q].children is Some && 0 <= j < kids(b1, q).len() implies q
                < (#[trigger] kids(b1, q)[j]).1 < b1.len() by {
                let p = |e: (Seq<char>, int)| keep(b0, e.1);
                lemma_filter_subset(kids(b0, q), p);
                let jj = choose|jj: int|
                    0 <= jj < kids(b0, q).len() && kids(b0, q)[jj] == #[trigger] kids(b1, q)[j];
            }
            assert forall|q: int, j1: int, j2: int|
                0 <= q < b1.len() && b1[q].children is Some && 0 <= j1 < kids(b1, q).len() && 0
                <= j2 < kids(b1, q).len() && j1 != j2 implies (#[trigger] kids(b1, q)[j1]).0 != (
            #[trigger] kids(b1, q)[j2]).0 by {
                let p = |e: (Seq<char>, int)| keep(b0, e.1);
                lemma_filter_unique_names(kids(b0, q), p);
            }
        }
    }
}

/// Pruning agrees with itself about what to keep: relative to an
/// already-pruned table, every inode's fate is what it was relative to
/// the original.
proof fn lemma_keep_stable(b0: Seq<Inode>, b1: Seq<Inode>, v: int)
    requires
        wf(b0),
        wf(b1),
        pruned_rel(b0, b1),
    ensures
        keep(b1, v) == keep(b0, v),
    decreases b0.len() - v,
{
    if 0 <= v < b0.len() && b0[v].children is Some {
        let p = |e: (Seq<char>, int)| keep(b0, e.1);
        assert(kids(b1, v) == kids(b0, v).filter(p));
        lemma_filter_subset(kids(b0, v), p);
        if keep(b1, v) {
            let j = choose|j: int|
                0 <= j < kids(b1, v).len() && v < (#[trigger] kids(b1, v)[j]).1 < b1.len() && keep(
                    b1,
                    kids(b1, v)[j].1,
                );
            let jj = choose|jj: int|
                0 <= jj < kids(b0, v).len() && kids(b0, v)[jj] == #[trigger] kids(b1, v)[j];
            lemma_keep_stable(b0, b1, kids(b0, v)[jj].1);
            assert(keep(b0, v));
        }
        if keep(b0, v) {
            let j = choose|j: int|
                0 <= j < kids(b0, v).len() && v < (#[trigger] kids(b0, v)[j]).1 < b0.len() && keep(
                    b0,
                    kids(b0, v)[j].1,
                );
            Seq::lemma_filter_contains(kids(b0, v), p, j);
            let f = kids(b0, v).filter(p);
            assert(f.contains(kids(b0, v)[j]));
            let fj = choose|fj: int| 0 <= fj < f.len() && f[fj] == kids(b0, v)[j];
            lemma_keep_stable(b0, b1, kids(b0, v)[j].1);
            assert(v < (kids(b1, v)[fj]).1 < b1.len() && keep(b1, kids(b1, v)[fj].1));
            assert(keep(b1, v));
        }
    }
}

/// Pruning is idempotent: pruning an already-pruned table leaves every
/// inode's identifier, kind and children exactly as they were.
pub proof fn lemma_prune_idempotent(b0: Seq<Inode>, b1: Seq<Inode>, b2: Seq<Inode>)
    requires
        wf(b0),
        wf(b1),
        pruned_rel(b0, b1),
        pruned_rel(b1, b2),
    ensures
        b2.len() == b1.len(),
        forall|i: int|
            0 <= i < b1.len() ==> {
                &&& (#[trigger] b2[i]).id.0@ == b1[i].id.0@
                &&& b2[i].ftype == b1[i].ftype
                &&& (b2[i].children is Some <==> b1[i].children is Some)
                &&& (b1[i].children is Some ==> kids(b2, i) == kids(b1, i))
            },
{
    let p0 = |e: (Seq<char>, int)| keep(b0, e.1);
    let p1 = |e: (Seq<char>, int)| keep(b1, e.1);
    assert forall|i: int|
        0 <= i < b1.len() && b1[i].children is Some implies kids(b2, i) == kids(b1, i) by {
        assert(kids(b2, i) == kids(b1, i).filter(p1));
        assert forall|j: int| 0 <= j < kids(b1, i).len() implies p1(#[trigger] kids(b1, i)[j])
            == p0(kids(b1, i)[j]) by {
            lemma_keep_stable(b0, b1, kids(b1, i)[j].1);
        }
        lemma_filter_congruent(kids(b1, i), p1, p0);
        assert(kids(b1, i) == kids(b0, i).filter(p0));
        lemma_filter_subset(kids(b0, i), p0);
        assert forall|j: int| 0 <= j < kids(b1, i).len() implies p0(#[trigger] kids(b1, i)[j]) by {
            Seq::lemma_filter_pred(kids(b0, i), p0, j);
        }
        lemma_filter_all_true(kids(b1, i), p0);
    }
}

} // verus!

verus! {

proof fn lemma_lookup_push(s: Seq<(Seq<char>, int)>, e: (Seq<char>, int), x: Seq<char>)
    ensures
        lookup_in(s.push(e), x) == (match lookup_in(s, x) {
            Some(c) => Some(c),
            None => if e.0 == x {
                Some(e.1)
            } else {
                None
            },
        }),
    decreases s.len(),
{
    if s.len() == 0 {
        assert(s.push(e)[0] == e);
        assert(s.push(e).skip(1) =~= Seq::<(Seq<char>, int)>::empty());
        assert(lookup_in(s.push(e).skip(1), x) is None);
        assert(lookup_in(s, x) is None);
        if e.0 == x {
            assert(lookup_in(s.push(e), x) == Some(e.1));
        } else {
            assert(lookup_in(s.push(e), x) is None);
        }
    } else {
        lemma_lookup_push(s.skip(1), e, x);
        assert(s.push(e)[0] == s[0]);
        assert(s.push(e).skip(1) =~= s.skip(1).push(e));
        if s[0].0 == x {
            assert(lookup_in(s.push(e), x) == Some(s[0].1));
            assert(lookup_in(s, x) == Some(s[0].1));
        } else {
            assert(lookup_in(s.push(e), x) == lookup_in(s.skip(1).push(e), x));
            assert(lookup_in(s, x) == lookup_in(s.skip(1), x));
        }
    }
}

/// What the entry stored under `x` in the children of folder `p`
/// leads to: the identifier and kind of the named child.
pub open spec fn child_content(b: Seq<Inode>, p: int, x: Seq<char>) -> Option<(Seq<u8>, FileType)> {
    match lookup_in(kids(b, p), x) {
        Some(c) => if 0 <= c < b.len() {
            Some((b[c].id.0@, b[c].ftype))
        } else {
            None
        },
        None => None,
    }
}

/// Sibling order does not change the tree.  Two rows with distinct
/// names under the same parent, inserted in either order, leave every
/// pre-existing inode identical, and give the parent the same mapping
/// from names to child identifier and kind; the two new nodes are
/// leaves either way, so the trees agree everywhere.
pub proof fn lemma_sibling_order_irrelevant(
    b0: Seq<Inode>,
    b1a: Seq<Inode>,
    b2a: Seq<Inode>,
    b1b: Seq<Inode>,
    b2b: Seq<Inode>,
    p: int,
    leaf_a: Seq<char>,
    id_a: Seq<u8>,
    ftype_a: FileType,
    leaf_b: Seq<char>,
    id_b: Seq<u8>,
    ftype_b: FileType,
)
    requires
        wf(b0),
        leaf_a != leaf_b,
        insert_rel(b0, b1a, p, leaf_a, id_a, ftype_a),
        insert_rel(b1a, b2a, p, leaf_b, id_b, ftype_b),
        insert_rel(b0, b1b, p, leaf_b, id_b, ftype_b),
        insert_rel(b1b, b2b, p, leaf_a, id_a, ftype_a),
    ensures
        b2a.len() == b2b.len(),
        forall|q: int| 0 <= q < b0.len() && q != p ==> b2a[q] == b2b[q] && b2a[q] == b0[q],
        b2a[p].id == b2b[p].id && b2a[p].ftype == b2b[p].ftype,
        forall|x: Seq<char>| #[trigger] child_content(b2a, p, x) == child_content(b2b, p, x),
{
    let n0 = b0.len() as int;
    assert forall|x: Seq<char>| #[trigger] child_content(b2a, p, x) == child_content(
        b2b,
        p,
        x,
    ) by {
        lemma_lookup_push(kids(b0, p), (leaf_a, n0), x);
        lemma_lookup_push(kids(b1a, p), (leaf_b, n0 + 1), x);
        lemma_lookup_push(kids(b0, p), (leaf_b, n0), x);
        lemma_lookup_push(kids(b1b, p), (leaf_a, n0 + 1), x);
        match lookup_in(kids(b0, p), x) {
            Some(c) => {
                // A name the parent already had: its child is an
                // untouched inode of the original table.
                lemma_lookup_some_contains(kids(b0, p), x, c);
                assert(p < c < b0.len());
                assert(b2a[c] == b0[c] && b2b[c] == b0[c]);
            },
            None => {
                if x == leaf_a {
                    assert(child_content(b2a, p, x) == Some((id_a, ftype_a)));
                    assert(child_content(b2b, p, x) == Some((id_a, ftype_a)));
                } else if x == leaf_b {
                    assert(child_content(b2a, p, x) == Some((id_b, ftype_b)));
                    assert(child_content(b2b, p, x) == Some((id_b, ftype_b)));
                } else {
                    assert(child_content(b2a, p, x) is None);
                    assert(child_content(b2b, p, x) is None);
                }
            },
        }
    }
}

} // verus!
