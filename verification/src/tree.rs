//! The scanned tree: file metadata, the entries of a directory, the explorer
//! session with its root and total size, and the error type.
use std::time::SystemTime;
use vstd::prelude::*;
use vstd::string::*;

use crate::base_funcs::files_seq;
use crate::laws::{law_new_keeps_scan, scan_files_seq};
use crate::paths::{push_path, spec_push};

verus! {

#[verifier::external_type_specification]
#[verifier::external_body]
pub struct ExSystemTime(std::time::SystemTime);

/// What is known of a file: its length in bytes, whether it is read-only,
/// and its modification, access and creation times.
#[derive(Debug, Clone, Copy)]
pub struct MetaData {
    pub len: u64,
    pub permissions: bool,
    pub modified: SystemTime,
    pub accessed: SystemTime,
    pub created: SystemTime,
}

impl MetaData {
    pub fn get_size(&self) -> (r: u64)
        ensures
            r == self.len,
    {
        self.len
    }

    pub fn get_permissions(&self) -> (r: bool)
        ensures
            r == self.permissions,
    {
        self.permissions
    }

    pub fn get_times(&self) -> (r: (SystemTime, SystemTime, SystemTime))
        ensures
            r == (self.modified, self.accessed, self.created),
    {
        (self.modified, self.accessed, self.created)
    }
}

/// One entry of a directory.
///
/// `Dir` is a directory whose contents have not been read; `KnowDir` is a
/// directory that has been read, with its entries and the total size of the
/// files beneath it; `File` and `SymLink` carry their own name.
#[derive(Debug)]
pub enum PathType {
    Dir(String),
    KnowDir(String, Vec<PathType>, u64),
    File(String, MetaData),
    SymLink(String),
}

/// The mathematical form of a `PathType`.
pub enum Node {
    Dir(Seq<char>),
    KnowDir(Seq<char>, Seq<Node>, u64),
    File(Seq<char>, MetaData),
    SymLink(Seq<char>),
}

pub open spec fn node_of(p: PathType) -> Node
    decreases p,
{
    match p {
        PathType::Dir(s) => Node::Dir(s@),
        PathType::KnowDir(s, v, z) => Node::KnowDir(s@, nodes_of(v@), z),
        PathType::File(s, m) => Node::File(s@, m),
        PathType::SymLink(s) => Node::SymLink(s@),
    }
}

pub open spec fn nodes_of(s: Seq<PathType>) -> Seq<Node>
    decreases s,
{
    if s.len() == 0 {
        Seq::empty()
    } else {
        nodes_of(s.subrange(0, s.len() - 1)).push(node_of(s[s.len() - 1]))
    }
}

impl View for PathType {
    type V = Node;

    open spec fn view(&self) -> Node {
        node_of(*self)
    }
}

pub proof fn lemma_nodes_of(s: Seq<PathType>)
    ensures
        nodes_of(s).len() == s.len(),
        forall|i: int| 0 <= i < s.len() ==> #[trigger] nodes_of(s)[i] == s[i]@,
    decreases s.len(),
{
    if s.len() > 0 {
        lemma_nodes_of(s.subrange(0, s.len() - 1));
    }
}

impl Node {
    /// The path that the entry carries.
    pub open spec fn path(self) -> Seq<char> {
        match self {
            Node::Dir(p) => p,
            Node::KnowDir(p, _, _) => p,
            Node::File(p, _) => p,
            Node::SymLink(p) => p,
        }
    }

    /// The size that the entry records: a file's length, a read directory's
    /// total, and 0 for the rest.
    pub open spec fn recorded_size(self) -> u64 {
        match self {
            Node::KnowDir(_, _, z) => z,
            Node::File(_, m) => m.len,
            _ => 0,
        }
    }
}

/// Whether a directory that has not been read lies at or beneath `n`.
pub open spec fn has_unread_dir(n: Node) -> bool
    decreases n,
{
    match n {
        Node::Dir(_) => true,
        Node::KnowDir(_, c, _) => any_unread(c),
        _ => false,
    }
}

pub open spec fn any_unread(s: Seq<Node>) -> bool
    decreases s,
{
    exists|i: int| 0 <= i < s.len() && has_unread_dir(#[trigger] s[i])
}

/// The total length of the files at or beneath `n`.
pub open spec fn total_size(n: Node) -> int
    decreases n,
{
    match n {
        Node::KnowDir(_, c, _) => total_size_seq(c),
        Node::File(_, m) => m.len as int,
        _ => 0,
    }
}

pub open spec fn total_size_seq(s: Seq<Node>) -> int
    decreases s,
{
    if s.len() == 0 {
        0
    } else {
        total_size_seq(s.subrange(0, s.len() - 1)) + total_size(s[s.len() - 1])
    }
}

/// Every read directory at or beneath `n` records the total length of the
/// files beneath it.
pub open spec fn sizes_consistent(n: Node) -> bool
    decreases n,
{
    match n {
        Node::KnowDir(_, c, z) => z == total_size_seq(c) && all_consistent(c),
        _ => true,
    }
}

pub open spec fn all_consistent(s: Seq<Node>) -> bool
    decreases s,
{
    forall|i: int| 0 <= i < s.len() ==> sizes_consistent(#[trigger] s[i])
}

impl PathType {
    /// Classifies a path from what the file system reports of it: a directory
    /// (followed through links), else a file with its metadata (followed
    /// through links), else a link that leads nowhere readable.
    ///
    /// `file_meta` is the metadata of the path when it is a file; the entry
    /// carries `file_name`, the last component of the path.
    pub fn get_type(file_name: &str, is_dir: bool, file_meta: Option<MetaData>, is_symlink: bool) -> (r:
        Result<PathType, Err0>)
        ensures
            is_dir ==> (r matches Ok(t) && t@ == Node::Dir(file_name@)),
            !is_dir ==> (file_meta matches Some(m) ==> (r matches Ok(t) && t@ == Node::File(file_name@, m))),
            !is_dir && file_meta is None && is_symlink ==> (r matches Ok(t) && t@ == Node::SymLink(file_name@)),
            !is_dir && file_meta is None && !is_symlink ==> (r matches Err(e) && e@ == "msg: unknow pathtype"@),
    {
        let p1 = String::from_str(file_name);
        if is_dir {
            Ok(PathType::Dir(p1))
        } else if let Some(m) = file_meta {
            Ok(PathType::File(p1, m))
        } else if is_symlink {
            Ok(PathType::SymLink(p1))
        } else {
            Err(Err0::new("msg: unknow pathtype"))
        }
    }

    pub fn get_path(&self) -> (r: String)
        ensures
            r@ == self@.path(),
    {
        match self {
            PathType::Dir(p) => p.clone(),
            PathType::File(p, _s) => p.clone(),
            PathType::KnowDir(p, _v, _s) => p.clone(),
            PathType::SymLink(p) => p.clone(),
        }
    }

    fn _get_size(&self) -> (r: u64)
        ensures
            r == self@.recorded_size(),
    {
        match self {
            PathType::Dir(_) => 0,
            PathType::File(_p, s) => s.len,
            PathType::KnowDir(_p, _v, s) => *s,
            PathType::SymLink(_p) => 0,
        }
    }
}

/// An entry as the file system listed it: a directory with the entries
/// read from it, a file with its metadata, or a link that leads nowhere
/// readable. Each carries its own name.
#[derive(Debug)]
pub enum ScanEntry {
    Dir(String, Vec<ScanEntry>),
    File(String, MetaData),
    SymLink(String),
}

/// The total length of the files listed at or beneath `e`.
pub open spec fn scan_total(e: ScanEntry) -> int
    decreases e,
{
    match e {
        ScanEntry::Dir(_, ch) => scan_total_seq(ch@),
        ScanEntry::File(_, m) => m.len as int,
        ScanEntry::SymLink(_) => 0,
    }
}

pub open spec fn scan_total_seq(s: Seq<ScanEntry>) -> int
    decreases s,
{
    if s.len() == 0 {
        0
    } else {
        scan_total_seq(s.subrange(0, s.len() - 1)) + scan_total(s[s.len() - 1])
    }
}

/// The entry that the explorer makes of `e`, listed in the directory
/// `parent`: a directory becomes a read directory that carries its full path,
/// its entries and the total length of the files beneath it.
pub open spec fn built(parent: Seq<char>, e: ScanEntry) -> Node
    decreases e,
{
    match e {
        ScanEntry::Dir(n, ch) => {
            let full = spec_push(parent, n@);
            Node::KnowDir(full, built_seq(full, ch@), scan_total_seq(ch@) as u64)
        },
        ScanEntry::File(n, m) => Node::File(n@, m),
        ScanEntry::SymLink(n) => Node::SymLink(n@),
    }
}

pub open spec fn built_seq(parent: Seq<char>, s: Seq<ScanEntry>) -> Seq<Node>
    decreases s,
{
    if s.len() == 0 {
        Seq::empty()
    } else {
        built_seq(parent, s.subrange(0, s.len() - 1)).push(built(parent, s[s.len() - 1]))
    }
}

pub proof fn lemma_scan_total_nonneg(s: Seq<ScanEntry>)
    ensures
        scan_total_seq(s) >= 0,
        forall|i: int| 0 <= i <= s.len() ==> scan_total_seq(#[trigger] s.subrange(0, i)) <= scan_total_seq(s),
        forall|i: int| 0 <= i <= s.len() ==> scan_total_seq(#[trigger] s.subrange(0, i)) >= 0,
    decreases s,
{
    if s.len() > 0 {
        let init = s.subrange(0, s.len() - 1);
        lemma_scan_total_nonneg(init);
        lemma_scan_total_one(s[s.len() - 1]);
        assert forall|i: int| 0 <= i <= s.len() implies scan_total_seq(#[trigger] s.subrange(0, i))
            <= scan_total_seq(s) && scan_total_seq(s.subrange(0, i)) >= 0 by {
            if i < s.len() {
                assert(s.subrange(0, i) =~= init.subrange(0, i));
            } else {
                assert(s.subrange(0, i) =~= s);
            }
        }
    } else {
        assert forall|i: int| 0 <= i <= s.len() implies scan_total_seq(#[trigger] s.subrange(0, i))
            <= scan_total_seq(s) && scan_total_seq(s.subrange(0, i)) >= 0 by {
            assert(s.subrange(0, i) =~= s);
        }
    }
}

/// A built entry holds no unread directory, every read directory in it records
/// the total length of the files beneath it, and its size is that of the scan.
pub proof fn lemma_built(parent: Seq<char>, e: ScanEntry)
    requires
        scan_total(e) <= u64::MAX,
    ensures
        !has_unread_dir(built(parent, e)),
        sizes_consistent(built(parent, e)),
        total_size(built(parent, e)) == scan_total(e),
        built(parent, e).recorded_size() == scan_total(e),
    decreases e,
{
    match e {
        ScanEntry::Dir(n, ch) => {
            let full = spec_push(parent, n@);
            lemma_scan_total_nonneg(ch@);
            lemma_built_seq(full, ch@);
        },
        _ => {},
    }
}

pub proof fn lemma_built_seq(parent: Seq<char>, s: Seq<ScanEntry>)
    requires
        scan_total_seq(s) <= u64::MAX,
    ensures
        built_seq(parent, s).len() == s.len(),
        forall|i: int| 0 <= i < s.len() ==> #[trigger] built_seq(parent, s)[i] == built(parent, s[i]),
        !any_unread(built_seq(parent, s)),
        all_consistent(built_seq(parent, s)),
        total_size_seq(built_seq(parent, s)) == scan_total_seq(s),
    decreases s,
{
    if s.len() > 0 {
        let init = s.subrange(0, s.len() - 1);
        let last = s[s.len() - 1];
        lemma_scan_total_nonneg(init);
        lemma_scan_total_nonneg(s);
        assert(scan_total_seq(s) == scan_total_seq(init) + scan_total(last));
        lemma_scan_total_one(last);
        lemma_built_seq(parent, init);
        lemma_built(parent, last);
        let b = built_seq(parent, s);
        assert(b == built_seq(parent, init).push(built(parent, last)));
        assert(b.subrange(0, b.len() - 1) =~= built_seq(parent, init));
        assert forall|i: int| 0 <= i < b.len() implies !has_unread_dir(#[trigger] b[i]) && sizes_consistent(b[i]) by {
            if i < b.len() - 1 {
                assert(b[i] == built_seq(parent, init)[i]);
            }
        }
    }
}

pub proof fn lemma_scan_total_one(e: ScanEntry)
    ensures
        scan_total(e) >= 0,
    decreases e,
{
    match e {
        ScanEntry::Dir(_, ch) => {
            lemma_scan_total_nonneg(ch@);
        },
        _ => {},
    }
}

fn entry_total(e: &ScanEntry) -> (r: Option<u64>)
    ensures
        r matches Some(t) ==> t == scan_total(*e),
        r is None <==> scan_total(*e) > u64::MAX,
    decreases *e,
{
    match e {
        ScanEntry::Dir(_, children) => {
            proof {
                assert(decreases_to!(*e => *children));
            }
            scan_total_size(children)
        },
        ScanEntry::File(_, m) => Some(m.len),
        ScanEntry::SymLink(_) => Some(0),
    }
}

/// The total length of the files that `listing` holds, or `None` where it
/// exceeds `u64::MAX` (the explorer then cannot record it).
#[verifier::loop_isolation(false)]
pub fn scan_total_size(listing: &Vec<ScanEntry>) -> (r: Option<u64>)
    ensures
        r matches Some(t) ==> t == scan_total_seq(listing@),
        r is None <==> scan_total_seq(listing@) > u64::MAX,
    decreases *listing,
{
    let mut total: u64 = 0;
    let mut i: usize = 0;
    proof {
        lemma_scan_total_nonneg(listing@);
        assert(listing@.subrange(0, 0) =~= Seq::<ScanEntry>::empty());
    }
    while i < listing.len()
        invariant
            i <= listing.len(),
            total == scan_total_seq(listing@.subrange(0, i as int)),
        decreases listing.len() - i,
    {
        let ghost pre = listing@.subrange(0, i as int);
        let ghost next = listing@.subrange(0, i + 1);
        proof {
            assert(next.subrange(0, next.len() - 1) =~= pre);
            lemma_scan_total_one(listing@[i as int]);
            assert(decreases_to!(*listing => listing@));
            assert(decreases_to!(listing@ => listing@[i as int]));
        }
        match entry_total(&listing[i]) {
            None => {
                return None;
            },
            Some(t) => {
                match total.checked_add(t) {
                    None => {
                        return None;
                    },
                    Some(s) => {
                        total = s;
                    },
                }
            },
        }
        i = i + 1;
    }
    proof {
        assert(listing@.subrange(0, i as int) =~= listing@);
    }
    Some(total)
}

/// One exploring session: the root path as given, its entries, and the total
/// length of the files beneath it.
#[derive(Debug)]
pub struct Explorer(pub String, pub Vec<PathType>, pub u64);

impl View for Explorer {
    type V = Node;

    /// The explorer seen as the read directory at its root.
    open spec fn view(&self) -> Node {
        Node::KnowDir(self.0@, nodes_of(self.1@), self.2)
    }
}

fn build_entry(parent: &String, e: &ScanEntry) -> (r: PathType)
    requires
        scan_total(*e) <= u64::MAX,
    ensures
        r@ == built(parent@, *e),
    decreases *e,
{
    match e {
        ScanEntry::Dir(name, children) => {
            let full = push_path(parent.as_str(), name.as_str());
            proof {
                assert(decreases_to!(*e => *children));
            }
            let (entries, len0) = build_listing(&full, children);
            PathType::KnowDir(full, entries, len0)
        },
        ScanEntry::File(name, m) => PathType::File(name.clone(), *m),
        ScanEntry::SymLink(name) => PathType::SymLink(name.clone()),
    }
}

#[verifier::loop_isolation(false)]
fn build_listing(full_path: &String, listing: &Vec<ScanEntry>) -> (r: (Vec<PathType>, u64))
    requires
        scan_total_seq(listing@) <= u64::MAX,
    ensures
        nodes_of(r.0@) == built_seq(full_path@, listing@),
        r.1 == scan_total_seq(listing@),
    decreases *listing,
{
    let mut output: Vec<PathType> = Vec::new();
    let mut len0: u64 = 0;
    let mut i: usize = 0;
    proof {
        lemma_scan_total_nonneg(listing@);
        assert(listing@.subrange(0, 0) =~= Seq::<ScanEntry>::empty());
        lemma_nodes_of(output@);
    }
    while i < listing.len()
        invariant
            i <= listing.len(),
            nodes_of(output@) == built_seq(full_path@, listing@.subrange(0, i as int)),
            len0 == scan_total_seq(listing@.subrange(0, i as int)),
        decreases listing.len() - i,
    {
        let ghost pre = listing@.subrange(0, i as int);
        let ghost next = listing@.subrange(0, i + 1);
        proof {
            assert(next.subrange(0, next.len() - 1) =~= pre);
            assert(scan_total_seq(next) == scan_total_seq(pre) + scan_total(listing@[i as int]));
            lemma_scan_total_one(listing@[i as int]);
            assert(decreases_to!(*listing => listing@));
            assert(decreases_to!(listing@ => listing@[i as int]));
        }
        let entry = build_entry(full_path, &listing[i]);
        proof {
            lemma_built(full_path@, listing@[i as int]);
        }
        len0 = len0 + entry._get_size();
        let ghost before = output@;
        output.push(entry);
        proof {
            assert(output@.subrange(0, output@.len() - 1) =~= before);
        }
        i = i + 1;
    }
    proof {
        assert(listing@.subrange(0, i as int) =~= listing@);
    }
    (output, len0)
}

impl Explorer {
    /// Makes the explorer of the directory `path` from `listing`, the entries
    /// read from it (and, for each directory, the entries read from that):
    /// each directory becomes a read directory that carries its full path and
    /// the total length of the files beneath it.
    pub fn new(path: &str, listing: &Vec<ScanEntry>) -> (r: Explorer)
        requires
            scan_total_seq(listing@) <= u64::MAX,
        ensures
            r@ == Node::KnowDir(path@, built_seq(path@, listing@), scan_total_seq(listing@) as u64),
            !has_unread_dir(r@),
            sizes_consistent(r@),
            total_size(r@) == r.2,
            files_seq(r.0@, nodes_of(r.1@)) == scan_files_seq(path@, listing@),
    {
        let pb0 = String::from_str(path);
        let (entries, size) = build_listing(&pb0, listing);
        proof {
            lemma_built_seq(path@, listing@);
            law_new_keeps_scan(path@, listing@);
        }
        Explorer(pb0, entries, size)
    }
}

/// An error, with its message.
#[derive(Debug)]
pub struct Err0(String);

impl View for Err0 {
    type V = Seq<char>;

    closed spec fn view(&self) -> Seq<char> {
        self.0@
    }
}

impl Err0 {
    pub fn new(msg: &str) -> (r: Err0)
        ensures
            r@ == msg@,
    {
        Err0(String::from_str(msg))
    }

    /// The message, as `Display` writes it.
    pub fn to_string(&self) -> (r: String)
        ensures
            r@ == self@,
    {
        self.0.clone()
    }

    pub fn description(&self) -> (r: &str)
        ensures
            r@ == self@,
    {
        self.0.as_str()
    }
}

} // verus!
