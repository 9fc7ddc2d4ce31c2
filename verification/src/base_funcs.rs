//! What an explorer offers: the list of its files and their filtering.
use std::time::SystemTime;
use vstd::prelude::*;

use crate::laws::law_filter_selects;
use crate::paths::{extension, extension_listed, has_listed_extension, push_path, spec_push, str_views};
use crate::tree::{
    any_unread, has_unread_dir, lemma_nodes_of, nodes_of, Err0, Explorer, MetaData, Node, PathType,
};

verus! {

/// The criteria by which `Explorer::filter` keeps files.
///
/// A file is kept when its extension is one of `extensions` (where that is
/// given) and its length lies within `size_range` (the least and the greatest
/// length kept, each optional). `name_slice`, `time`, `read_only` and
/// `symlink` are carried but do not take part in filtering.
#[derive(Clone, Copy)]
pub struct Filter<'a> {
    pub extensions: Option<&'a [&'a str]>,
    pub size_range: [Option<u64>; 2],
    pub name_slice: Option<&'a str>,
    pub time: [Option<SystemTime>; 6],
    pub read_only: bool,
    pub symlink: bool,
}

impl<'a> Default for Filter<'a> {
    fn default() -> (r: Self)
        ensures
            r.extensions is None,
            r.size_range@ == seq![None::<u64>, None::<u64>],
            r.name_slice is None,
            r.time@ == seq![None::<SystemTime>, None, None, None, None, None],
            !r.read_only,
            !r.symlink,
    {
        Self {
            extensions: None,
            size_range: [None, None],
            name_slice: None,
            time: [None, None, None, None, None, None],
            read_only: false,
            symlink: false,
        }
    }
}

/// What a filter selects by: the extensions kept (where given) and the least
/// and the greatest length kept (each where given).
pub struct Criteria {
    pub exts: Option<Seq<Seq<char>>>,
    pub min: Option<u64>,
    pub max: Option<u64>,
}

impl<'a> Filter<'a> {
    /// The criteria that the filter applies.
    pub open spec fn criteria(&self) -> Criteria {
        Criteria {
            exts: match self.extensions {
                Some(e) => Some(str_views(e@)),
                None => None,
            },
            min: self.size_range@[0],
            max: self.size_range@[1],
        }
    }
}

/// A file as the listing gives it: its full path, its name and its metadata.
pub struct ListedFile {
    pub path: Seq<char>,
    pub name: Seq<char>,
    pub meta: MetaData,
}

/// The files of the entry `n` listed in the directory whose full path is `dir`,
/// in the order in which the tree lists them: a file's path is `dir` with its
/// name appended; a read directory lists its files under its own full path.
pub open spec fn files(dir: Seq<char>, n: Node) -> Seq<ListedFile>
    decreases n,
{
    match n {
        Node::KnowDir(p, c, _) => files_seq(p, c),
        Node::File(name, m) => seq![ListedFile { path: spec_push(dir, name), name, meta: m }],
        _ => Seq::empty(),
    }
}

/// The files of the entries `s` of the directory whose full path is `dir`,
/// entry by entry.
pub open spec fn files_seq(dir: Seq<char>, s: Seq<Node>) -> Seq<ListedFile>
    decreases s,
{
    if s.len() == 0 {
        Seq::empty()
    } else {
        files_seq(dir, s.subrange(0, s.len() - 1)) + files(dir, s[s.len() - 1])
    }
}

pub open spec fn paths_of(f: Seq<ListedFile>) -> Seq<Seq<char>> {
    f.map_values(|x: ListedFile| x.path)
}

pub open spec fn texts(v: Seq<String>) -> Seq<Seq<char>> {
    v.map_values(|s: String| s@)
}

pub proof fn lemma_texts_paths_add(a: Seq<String>, b: Seq<String>, f: Seq<ListedFile>, g: Seq<ListedFile>)
    requires
        texts(a) == paths_of(f),
        texts(b) == paths_of(g),
    ensures
        texts(a + b) == paths_of(f + g),
{
    assert(texts(a + b) =~= texts(a) + texts(b));
    assert(paths_of(f + g) =~= paths_of(f) + paths_of(g));
}

fn flatten_node(dir: &String, part: &PathType) -> (r: Result<Vec<String>, Err0>)
    ensures
        r is Err <==> has_unread_dir(part@),
        r matches Ok(v) ==> texts(v@) == paths_of(files(dir@, part@)),
        r matches Err(e) ==> e@ == "why a not readed dir here"@,
    decreases *part,
{
    match part {
        PathType::KnowDir(path, inner, _size) => {
            proof {
                assert(decreases_to!(*part => *inner));
            }
            flatten_entries(path, inner)
        },
        PathType::File(name, _i0_metadata) => {
            let mut output = Vec::new();
            output.push(push_path(dir.as_str(), name.as_str()));
            proof {
                assert(texts(output@) =~= paths_of(files(dir@, part@)));
            }
            Ok(output)
        },
        PathType::SymLink(_path) => {
            let output = Vec::new();
            proof {
                assert(texts(output@) =~= paths_of(files(dir@, part@)));
            }
            Ok(output)
        },
        PathType::Dir(_path) => Err(Err0::new("why a not readed dir here")),
    }
}
#[verifier::loop_isolation(false)]
fn flatten_entries(abs_path: &String, inner: &Vec<PathType>) -> (r: Result<Vec<String>, Err0>)
    ensures
        r is Err <==> any_unread(nodes_of(inner@)),
        r matches Ok(v) ==> texts(v@) == paths_of(files_seq(abs_path@, nodes_of(inner@))),
        r matches Err(e) ==> e@ == "why a not readed dir here"@,
    decreases *inner,
{
    let ghost ns = nodes_of(inner@);
    proof {
        lemma_nodes_of(inner@);
        assert(ns.subrange(0, 0) =~= Seq::<Node>::empty());
    }
    let mut output: Vec<String> = Vec::new();
    let mut i: usize = 0;
    while i < inner.len()
        invariant
            i <= inner.len(),
            forall|j: int| 0 <= j < i ==> !has_unread_dir(#[trigger] ns[j]),
            texts(output@) == paths_of(files_seq(abs_path@, ns.subrange(0, i as int))),
        decreases inner.len() - i,
    {
        proof {
            assert(decreases_to!(*inner => inner@));
            assert(decreases_to!(inner@ => inner@[i as int]));
        }
        let sub = flatten_node(abs_path, &inner[i]);
        match sub {
            Err(e) => {
                proof {
                    assert(has_unread_dir(ns[i as int]));
                }
                return Err(e);
            },
            Ok(mut v) => {
                let ghost before = output@;
                let ghost vv = v@;
                output.append(&mut v);
                proof {
                    let next = ns.subrange(0, i + 1);
                    assert(next.subrange(0, next.len() - 1) =~= ns.subrange(0, i as int));
                    lemma_texts_paths_add(before, vv, files_seq(abs_path@, ns.subrange(0, i as int)),
                        files(abs_path@, ns[i as int]));
                }
            },
        }
        i = i + 1;
    }
    proof {
        assert(ns.subrange(0, i as int) =~= ns);
    }
    Ok(output)
}

/// Whether `b` drops a file named `name` of length `len`: its extension is not
/// among the extensions given, or its length falls outside the bounds given.
pub open spec fn rejects(b: Criteria, name: Seq<char>, len: u64) -> bool {
    ||| (b.exts matches Some(es) && !extension_listed(es, name))
    ||| (b.min matches Some(min) && len < min)
    ||| (b.max matches Some(max) && len > max)
}

pub open spec fn is_rejected_file(n: Node, b: Criteria) -> bool {
    n matches Node::File(name, m) && rejects(b, name, m.len)
}

/// The length that filtering by `b` takes away at or beneath `n`.
pub open spec fn removed_size(n: Node, b: Criteria) -> int
    decreases n,
{
    match n {
        Node::File(name, m) => if rejects(b, name, m.len) {
            m.len as int
        } else {
            0
        },
        Node::KnowDir(_, c, _) => removed_size_seq(c, b),
        _ => 0,
    }
}

/// The length that filtering by `b` takes away from the entries `s`, which are
/// taken from the last one back; the count stops at an entry that holds an
/// unread directory.
pub open spec fn removed_size_seq(s: Seq<Node>, b: Criteria) -> int
    decreases s,
{
    if s.len() == 0 {
        0
    } else if has_unread_dir(s[s.len() - 1]) {
        0
    } else {
        removed_size_seq(s.subrange(0, s.len() - 1), b) + removed_size(s[s.len() - 1], b)
    }
}

/// `n` after filtering by `b`: each read directory loses the files whose length
/// falls outside `b` and its size goes down by their total.
///
/// Entries are taken from the last one back. Filtering stops at the first
/// unread directory met that way: the entries before it stay as they were, and
/// the sizes of the directories that hold it are not changed.
pub open spec fn filtered(n: Node, b: Criteria) -> Node
    decreases n,
{
    match n {
        Node::KnowDir(p, c, z) => Node::KnowDir(
            p,
            filtered_seq(c, b),
            if any_unread(c) {
                z
            } else {
                (z - removed_size_seq(c, b)) as u64
            },
        ),
        _ => n,
    }
}

pub open spec fn filtered_seq(s: Seq<Node>, b: Criteria) -> Seq<Node>
    decreases s,
{
    if s.len() == 0 {
        s
    } else {
        let init = s.subrange(0, s.len() - 1);
        let last = s[s.len() - 1];
        if has_unread_dir(last) {
            init.push(filtered(last, b))
        } else if is_rejected_file(last, b) {
            filtered_seq(init, b)
        } else {
            filtered_seq(init, b).push(filtered(last, b))
        }
    }
}

/// Filtering `n` by `b` runs without overflow: no directory's size goes below
/// zero, and no running total of removed lengths exceeds `u64::MAX`.
pub open spec fn filter_safe(n: Node, b: Criteria) -> bool
    decreases n,
{
    match n {
        Node::KnowDir(_, c, z) => filter_safe_seq(c, b) && removed_size_seq(c, b) <= (if any_unread(c) {
            u64::MAX as int
        } else {
            z as int
        }),
        _ => true,
    }
}

pub open spec fn filter_safe_seq(s: Seq<Node>, b: Criteria) -> bool
    decreases s,
{
    if s.len() == 0 {
        true
    } else if has_unread_dir(s[s.len() - 1]) {
        filter_safe(s[s.len() - 1], b)
    } else {
        filter_safe_seq(s.subrange(0, s.len() - 1), b) && filter_safe(s[s.len() - 1], b)
    }
}

/// What filtering `n` reports to the directory that holds it: a rejected file
/// with its length and `true` (take it away), a read directory with the length
/// taken from it and `false`, and nothing for the rest.
pub open spec fn reported(n: Node, b: Criteria) -> Option<(u64, bool)> {
    match n {
        Node::File(name, m) => if rejects(b, name, m.len) {
            Some((m.len, true))
        } else {
            None
        },
        Node::KnowDir(_, c, _) => Some((removed_size_seq(c, b) as u64, false)),
        _ => None,
    }
}

pub proof fn lemma_removed_nonneg(n: Node, b: Criteria)
    ensures
        removed_size(n, b) >= 0,
    decreases n,
{
    match n {
        Node::KnowDir(_, c, _) => lemma_removed_seq_nonneg(c, b),
        _ => {},
    }
}

pub proof fn lemma_removed_seq_nonneg(s: Seq<Node>, b: Criteria)
    ensures
        removed_size_seq(s, b) >= 0,
    decreases s,
{
    if s.len() > 0 {
        lemma_removed_seq_nonneg(s.subrange(0, s.len() - 1), b);
        lemma_removed_nonneg(s[s.len() - 1], b);
    }
}

/// Splitting the entries where no unread directory follows.
pub proof fn lemma_split(s: Seq<Node>, j: int, b: Criteria)
    requires
        0 <= j <= s.len(),
        !any_unread(s.subrange(j, s.len() as int)),
    ensures
        filtered_seq(s, b) == filtered_seq(s.subrange(0, j), b) + filtered_seq(s.subrange(j, s.len() as int), b),
        removed_size_seq(s, b) == removed_size_seq(s.subrange(0, j), b) + removed_size_seq(s.subrange(j, s.len() as int), b),
        filter_safe_seq(s, b) ==> filter_safe_seq(s.subrange(0, j), b),
        filter_safe_seq(s, b) ==> forall|k: int| j <= k < s.len() ==> filter_safe(#[trigger] s[k], b),
    decreases s.len() - j,
{
    let tail = s.subrange(j, s.len() as int);
    if j == s.len() {
        assert(s.subrange(0, j) =~= s);
        assert(tail =~= Seq::<Node>::empty());
        assert(filtered_seq(s, b) + filtered_seq(tail, b) =~= filtered_seq(s, b));
    } else {
        let n = s.len() - 1;
        let init = s.subrange(0, n);
        let last = s[n];
        assert(tail[tail.len() - 1] == last);
        assert(!has_unread_dir(last));
        assert(!any_unread(init.subrange(j, n))) by {
            assert forall|k: int| 0 <= k < init.subrange(j, n).len() implies !has_unread_dir(
                #[trigger] init.subrange(j, n)[k],
            ) by {
                assert(init.subrange(j, n)[k] == tail[k]);
            }
        }
        lemma_split(init, j, b);
        assert(init.subrange(0, j) =~= s.subrange(0, j));
        assert(tail.subrange(0, tail.len() - 1) =~= init.subrange(j, n));
        assert(s.subrange(0, n as int) == init);
        if is_rejected_file(last, b) {
        } else {
            assert(filtered_seq(s, b) =~= filtered_seq(s.subrange(0, j), b) + filtered_seq(tail, b));
        }
        assert forall|k: int| j <= k < s.len() && filter_safe_seq(s, b) implies filter_safe(#[trigger] s[k], b) by {
            if k < n {
                assert(s[k] == init[k]);
            }
        }
    }
}

/// Where the last entry that holds an unread directory is the `j`-th,
/// filtering keeps the entries before it and stops at it.
pub proof fn lemma_stop(s: Seq<Node>, j: int, b: Criteria)
    requires
        0 <= j < s.len(),
        has_unread_dir(s[j]),
        !any_unread(s.subrange(j + 1, s.len() as int)),
    ensures
        filtered_seq(s, b) == s.subrange(0, j).push(filtered(s[j], b)) + filtered_seq(s.subrange(j + 1, s.len() as int), b),
        removed_size_seq(s, b) == removed_size_seq(s.subrange(j + 1, s.len() as int), b),
        filter_safe_seq(s, b) ==> filter_safe(s[j], b),
        any_unread(s),
{
    lemma_split(s, j + 1, b);
    let head = s.subrange(0, j + 1);
    assert(head.subrange(0, j) =~= s.subrange(0, j));
    assert(head[j] == s[j]);
}

/// A rejected file is taken away; any other entry is replaced by its filtered form.
pub proof fn lemma_one(x: Node, rest: Seq<Node>, b: Criteria)
    requires
        !has_unread_dir(x),
        !any_unread(rest),
    ensures
        filtered_seq(seq![x] + rest, b) == (if is_rejected_file(x, b) {
            filtered_seq(rest, b)
        } else {
            seq![filtered(x, b)] + filtered_seq(rest, b)
        }),
        removed_size_seq(seq![x] + rest, b) == removed_size(x, b) + removed_size_seq(rest, b),
{
    let s = seq![x] + rest;
    assert(s.subrange(1, s.len() as int) =~= rest);
    assert(!any_unread(s.subrange(1, s.len() as int)));
    lemma_split(s, 1, b);
    let head = s.subrange(0, 1);
    assert(head.subrange(0, 0) =~= Seq::<Node>::empty());
    assert(head[0] == x);
    assert(filtered_seq(Seq::<Node>::empty(), b) == Seq::<Node>::empty());
    assert(head.len() == 1);
    assert(removed_size_seq(Seq::<Node>::empty(), b) == 0);
    assert(removed_size_seq(head, b) == removed_size(x, b));
    if !is_rejected_file(x, b) {
        assert(filtered_seq(head, b) =~= seq![filtered(x, b)]);
    }
}

/// One step of filtering from the back, at an entry without unread directories.
proof fn lemma_step_ok(os: Seq<Node>, i: int, b: Criteria)
    requires
        0 < i <= os.len(),
        !any_unread(os.subrange(i, os.len() as int)),
        !has_unread_dir(os[i - 1]),
        filter_safe_seq(os, b),
        removed_size_seq(os, b) <= u64::MAX,
    ensures
        ({
            let x = os[i - 1];
            let tail = os.subrange(i, os.len() as int);
            let tj = os.subrange(i - 1, os.len() as int);
            &&& !any_unread(tj)
            &&& filter_safe(x, b)
            &&& removed_size(x, b) >= 0
            &&& removed_size_seq(tail, b) >= 0
            &&& removed_size_seq(tj, b) == removed_size(x, b) + removed_size_seq(tail, b)
            &&& removed_size_seq(tj, b) <= u64::MAX
            &&& filtered_seq(tj, b) == (if is_rejected_file(x, b) {
                filtered_seq(tail, b)
            } else {
                seq![filtered(x, b)] + filtered_seq(tail, b)
            })
            &&& reported(x, b) is Some ==> reported(x, b).unwrap().0 == removed_size(x, b)
            &&& (reported(x, b) is None ==> removed_size(x, b) == 0)
            &&& (reported(x, b) matches Some(o) ==> (o.1 <==> is_rejected_file(x, b)))
        }),
{
    let x = os[i - 1];
    let tail = os.subrange(i, os.len() as int);
    let tj = os.subrange(i - 1, os.len() as int);
    assert(tj =~= seq![x] + tail);
    assert forall|k: int| 0 <= k < tj.len() implies !has_unread_dir(#[trigger] tj[k]) by {
        if k > 0 {
            assert(tj[k] == tail[k - 1]);
        }
    }
    lemma_split(os, i - 1, b);
    lemma_one(x, tail, b);
    lemma_removed_seq_nonneg(os.subrange(0, i - 1), b);
    lemma_removed_seq_nonneg(tail, b);
    lemma_removed_nonneg(x, b);
    match x {
        Node::KnowDir(_, c, _) => {
            assert(filter_safe(x, b));
            lemma_removed_seq_nonneg(c, b);
        },
        _ => {},
    }
}

proof fn lemma_nodes_cons(y: PathType, done: Seq<PathType>)
    ensures
        nodes_of(seq![y] + done) == seq![y@] + nodes_of(done),
{
    lemma_nodes_of_add(seq![y], done);
    lemma_nodes_of(seq![y]);
    assert(nodes_of(seq![y]) =~= seq![y@]);
}

proof fn lemma_nodes_prefix(v: Seq<PathType>, j: int)
    requires
        0 <= j <= v.len(),
    ensures
        nodes_of(v.subrange(0, j)) == nodes_of(v).subrange(0, j),
{
    lemma_nodes_of(v);
    lemma_nodes_of(v.subrange(0, j));
    assert(nodes_of(v.subrange(0, j)) =~= nodes_of(v).subrange(0, j));
}

proof fn lemma_nodes_of_add(a: Seq<PathType>, c: Seq<PathType>)
    ensures
        nodes_of(a + c) == nodes_of(a) + nodes_of(c),
{
    lemma_nodes_of(a);
    lemma_nodes_of(c);
    lemma_nodes_of(a + c);
    assert(nodes_of(a + c) =~= nodes_of(a) + nodes_of(c));
}

fn filter_node(i0: &mut PathType, filter: &Filter) -> (r: Result<Option<(u64, bool)>, Err0>)
    requires
        filter_safe(old(i0)@, filter.criteria()),
    ensures
        final(i0)@ == filtered(old(i0)@, filter.criteria()),
        r is Err <==> has_unread_dir(old(i0)@),
        r matches Err(e) ==> e@ == "why a not readed dir here"@,
        r matches Ok(o) ==> o == reported(old(i0)@, filter.criteria()),
    decreases *old(i0),
{
    match i0 {
        PathType::Dir(_path) => {
            return Err(Err0::new("why a not readed dir here"));
        },
        PathType::KnowDir(_, inner, size) => {
            proof {
                assert(decreases_to!(*old(i0) => *inner));
            }
            let remove_size = filter_entries(inner, filter)?;
            *size -= remove_size;
            return Ok(Some((remove_size, false)));
        },
        PathType::File(path, metadata) => {
            let size = metadata.get_size();
            if let Some(exts) = filter.extensions {
                if !has_listed_extension(path.as_str(), exts) {
                    return Ok(Some((size, true)));
                }
            }
            let min = filter.size_range[0];
            let max = filter.size_range[1];
            if let Some(min) = min {
                if size < min {
                    return Ok(Some((size, true)));
                }
            }
            if let Some(max) = max {
                if size > max {
                    return Ok(Some((size, true)));
                }
            }
        },
        PathType::SymLink(_path) => {},
    }
    Ok(None)
}

#[verifier::loop_isolation(false)]
#[verifier::rlimit(60)]
fn filter_entries(inner: &mut Vec<PathType>, filter: &Filter) -> (r: Result<u64, Err0>)
    requires
        filter_safe_seq(nodes_of(old(inner)@), filter.criteria()),
        removed_size_seq(nodes_of(old(inner)@), filter.criteria()) <= u64::MAX,
    ensures
        nodes_of(final(inner)@) == filtered_seq(nodes_of(old(inner)@), filter.criteria()),
        r is Err <==> any_unread(nodes_of(old(inner)@)),
        r matches Err(e) ==> e@ == "why a not readed dir here"@,
        r matches Ok(x) ==> x == removed_size_seq(nodes_of(old(inner)@), filter.criteria()),
    decreases *old(inner),
{
    let ghost b = filter.criteria();
    let ghost old_v = inner@;
    let ghost os = nodes_of(old_v);
    let ghost len = old_v.len();
    let ghost mut done: Seq<PathType> = Seq::empty();
    proof {
        lemma_nodes_of(old_v);
        lemma_nodes_of(done);
        assert(os.subrange(len as int, len as int) =~= Seq::<Node>::empty());
        assert(old_v.subrange(0, len as int) + done =~= old_v);
        lemma_removed_seq_nonneg(os, b);
    }
    let mut remove_size: u64 = 0;
    let mut i: usize = inner.len();
    while i > 0
        invariant
            i <= len,
            inner@ == old_v.subrange(0, i as int) + done,
            nodes_of(done) == filtered_seq(os.subrange(i as int, len as int), b),
            remove_size == removed_size_seq(os.subrange(i as int, len as int), b),
            !any_unread(os.subrange(i as int, len as int)),
        decreases i,
    {
        let j = i - 1;
        let ghost x = os[j as int];
        let ghost tail = os.subrange(i as int, len as int);
        proof {
            assert(inner@[j as int] == old_v[j as int]);
            assert(old_v[j as int]@ == x);
            assert(decreases_to!(*old(inner) => old_v));
            assert(decreases_to!(old_v => old_v[j as int]));
            if has_unread_dir(x) {
                lemma_stop(os, j as int, b);
            } else {
                lemma_step_ok(os, i as int, b);
            }
        }
        let res = filter_node(&mut inner[j], filter);
        match res {
            Err(e) => {
                proof {
                    lemma_stop(os, j as int, b);
                    let y = inner@[j as int];
                    assert(inner@ =~= old_v.subrange(0, j as int) + (seq![y] + done));
                    lemma_nodes_of_add(old_v.subrange(0, j as int), seq![y] + done);
                    lemma_nodes_cons(y, done);
                    lemma_nodes_prefix(old_v, j as int);
                    assert(os.subrange(0, j as int).push(y@) + filtered_seq(tail, b) =~= os.subrange(0, j as int) + (seq![y@] + filtered_seq(tail, b)));
                }
                return Err(e);
            },
            Ok(o) => {
                if let Some((inner_size, remove)) = o {
                    remove_size += inner_size;
                    if remove {
                        let _ = inner.remove(j);
                        proof {
                            assert(inner@ =~= old_v.subrange(0, j as int) + done);
                        }
                    } else {
                        proof {
                            let y = inner@[j as int];
                            assert(inner@ =~= old_v.subrange(0, j as int) + (seq![y] + done));
                            lemma_nodes_cons(y, done);
                            done = seq![y] + done;
                        }
                    }
                } else {
                    proof {
                        let y = inner@[j as int];
                        assert(inner@ =~= old_v.subrange(0, j as int) + (seq![y] + done));
                        lemma_nodes_cons(y, done);
                        done = seq![y] + done;
                    }
                }
            },
        }
        i = j;
    }
    proof {
        assert(os.subrange(0, len as int) =~= os);
        assert(inner@ =~= done);
    }
    Ok(remove_size)
}

impl Explorer {
    /// Takes away every file that `filter` drops (see `rejects`),
    /// and lowers the size of each directory that held one by the length taken
    /// away beneath it (see `filtered`). Fails if a directory has not been read;
    /// the entries are then left as `filtered` describes.
    pub fn filter(&mut self, filter: &Filter) -> (r: Result<(), Err0>)
        requires
            filter_safe(old(self)@, filter.criteria()),
        ensures
            final(self)@ == filtered(old(self)@, filter.criteria()),
            r is Err <==> has_unread_dir(old(self)@),
            r matches Err(e) ==> e@ == "why a not readed dir here"@,
            r is Ok ==> files_seq(final(self).0@, nodes_of(final(self).1@)) == files_seq(
                old(self).0@,
                nodes_of(old(self).1@),
            ).filter(
                |x: ListedFile|
                    (filter.size_range@[0] matches Some(min) ==> min <= x.meta.len) && (filter.size_range@[1] matches Some(
                        max,
                    ) ==> x.meta.len <= max) && (filter.extensions matches Some(e) ==> exists|j: int|
                        0 <= j < e@.len() && extension(x.name) == Some(#[trigger] e@[j]@)),
            ),
    {
        let ghost before = self@;
        let remove_size = filter_entries(&mut self.1, filter)?;
        self.2 -= remove_size;
        proof {
            law_filter_selects(self.0@, before, *filter);
        }
        Ok(())
    }

    /// Lists the full path of every file, entry by entry and depth first: the
    /// full path of the directory that holds the file with the file's name
    /// appended. Links are left out. Fails if a directory has not been read.
    pub fn flatten(&self) -> (r: Result<Vec<String>, Err0>)
        ensures
            r is Err <==> has_unread_dir(self@),
            r matches Ok(v) ==> texts(v@) == paths_of(files_seq(self.0@, nodes_of(self.1@))),
            r matches Err(e) ==> e@ == "why a not readed dir here"@,
    {
        flatten_entries(&self.0, &self.1)
    }

    /// Reports files that share a name; it reports nothing yet.
    pub fn same_name_finder(&self) -> (r: Result<(), Err0>)
        ensures
            r is Ok,
    {
        Ok(())
    }
}

} // verus!
