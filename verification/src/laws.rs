//! What holds of the explorer's operations taken together.
use vstd::prelude::*;

use crate::base_funcs::{
    paths_of, Criteria, Filter, ListedFile, files, files_seq, filtered, filtered_seq, filter_safe, filter_safe_seq, is_rejected_file, rejects,
    removed_size, removed_size_seq,
};
use crate::paths::{extension, extension_listed, spec_push, str_views};
use crate::tree::{
    built, built_seq, ScanEntry, all_consistent, any_unread, has_unread_dir, sizes_consistent, total_size, total_size_seq, Node,
};

verus! {

/// The files that criteria `b` keep: those that `b` does not drop.
pub open spec fn kept_by(b: Criteria) -> spec_fn(ListedFile) -> bool {
    |x: ListedFile| !rejects(b, x.name, x.meta.len)
}

/// Criteria that drop nothing.
pub open spec fn no_criteria() -> Criteria {
    Criteria { exts: None, min: None, max: None }
}

pub proof fn lemma_total_nonneg(n: Node)
    ensures
        total_size(n) >= 0,
    decreases n,
{
    match n {
        Node::KnowDir(_, c, _) => lemma_total_seq_nonneg(c),
        _ => {},
    }
}

pub proof fn lemma_total_seq_nonneg(s: Seq<Node>)
    ensures
        total_size_seq(s) >= 0,
    decreases s,
{
    if s.len() > 0 {
        lemma_total_seq_nonneg(s.subrange(0, s.len() - 1));
        lemma_total_nonneg(s[s.len() - 1]);
    }
}

/// Filtering never takes away more than the files hold.
pub proof fn lemma_removed_le_total(n: Node, b: Criteria)
    ensures
        removed_size(n, b) <= total_size(n),
    decreases n,
{
    match n {
        Node::KnowDir(_, c, _) => lemma_removed_le_total_seq(c, b),
        _ => {},
    }
}

pub proof fn lemma_removed_le_total_seq(s: Seq<Node>, b: Criteria)
    ensures
        removed_size_seq(s, b) <= total_size_seq(s),
    decreases s,
{
    if s.len() > 0 {
        lemma_removed_le_total_seq(s.subrange(0, s.len() - 1), b);
        lemma_removed_le_total(s[s.len() - 1], b);
        lemma_total_seq_nonneg(s);
        lemma_total_seq_nonneg(s.subrange(0, s.len() - 1));
        lemma_total_nonneg(s[s.len() - 1]);
    }
}

/// A tree in which every read directory records the total length of the files
/// beneath it (as `Explorer::new` makes it) can be filtered by any criteria:
/// no size goes below zero and no running total overflows.
pub proof fn law_consistent_filter_safe(n: Node, b: Criteria)
    requires
        sizes_consistent(n),
    ensures
        filter_safe(n, b),
    decreases n,
{
    match n {
        Node::KnowDir(_, c, z) => {
            law_consistent_filter_safe_seq(c, b);
            lemma_removed_le_total_seq(c, b);
        },
        _ => {},
    }
}

pub proof fn law_consistent_filter_safe_seq(s: Seq<Node>, b: Criteria)
    requires
        all_consistent(s),
    ensures
        filter_safe_seq(s, b),
    decreases s,
{
    if s.len() > 0 {
        let init = s.subrange(0, s.len() - 1);
        assert forall|i: int| 0 <= i < init.len() implies sizes_consistent(#[trigger] init[i]) by {
            assert(init[i] == s[i]);
        }
        law_consistent_filter_safe_seq(init, b);
        assert(sizes_consistent(s[s.len() - 1]));
        law_consistent_filter_safe(s[s.len() - 1], b);
    }
}

/// Filtering a tree without unread directories keeps every directory's size
/// equal to the total length of the files beneath it, and the total goes down
/// by exactly the length taken away. (A file that the criteria drop is taken
/// away by the directory that holds it, so `n` is not one.)
pub proof fn law_filter_keeps_consistent(n: Node, b: Criteria)
    requires
        sizes_consistent(n),
        !has_unread_dir(n),
        !is_rejected_file(n, b),
    ensures
        sizes_consistent(filtered(n, b)),
        !has_unread_dir(filtered(n, b)),
        total_size(filtered(n, b)) == total_size(n) - removed_size(n, b),
    decreases n,
{
    match n {
        Node::KnowDir(p, c, z) => {
            law_filter_keeps_consistent_seq(c, b);
            lemma_removed_le_total_seq(c, b);
            crate::base_funcs::lemma_removed_seq_nonneg(c, b);
            assert(!any_unread(c));
            let f = filtered(n, b);
            assert(f == Node::KnowDir(p, filtered_seq(c, b), (z - removed_size_seq(c, b)) as u64));
            assert(total_size(f) == total_size_seq(filtered_seq(c, b)));
        },
        _ => {},
    }
}

pub proof fn law_filter_keeps_consistent_seq(s: Seq<Node>, b: Criteria)
    requires
        all_consistent(s),
        !any_unread(s),
    ensures
        all_consistent(filtered_seq(s, b)),
        !any_unread(filtered_seq(s, b)),
        total_size_seq(filtered_seq(s, b)) == total_size_seq(s) - removed_size_seq(s, b),
    decreases s,
{
    if s.len() > 0 {
        let init = s.subrange(0, s.len() - 1);
        let last = s[s.len() - 1];
        assert forall|i: int| 0 <= i < init.len() implies sizes_consistent(#[trigger] init[i])
            && !has_unread_dir(init[i]) by {
            assert(init[i] == s[i]);
        }
        assert(!has_unread_dir(last));
        law_filter_keeps_consistent_seq(init, b);
        let fi = filtered_seq(init, b);
        if is_rejected_file(last, b) {
            assert(removed_size(last, b) == total_size(last));
            assert(filtered_seq(s, b) == fi);
        } else {
            law_filter_keeps_consistent(last, b);
            let r = fi.push(filtered(last, b));
            assert(r.subrange(0, r.len() - 1) =~= fi);
            assert forall|i: int| 0 <= i < r.len() implies sizes_consistent(#[trigger] r[i])
                && !has_unread_dir(r[i]) by {
                if i < fi.len() {
                    assert(r[i] == fi[i]);
                }
            }
        }
    }
}

/// Filtering a tree without unread directories keeps exactly the files whose
/// the criteria do not drop, in the order in which they were listed, each
/// under the same path. (A file that the criteria drop is taken away by the
/// directory that holds it, so `n` is not one.)
pub proof fn law_filter_files(abs: Seq<char>, n: Node, b: Criteria)
    requires
        !has_unread_dir(n),
        !is_rejected_file(n, b),
    ensures
        files(abs, filtered(n, b)) == files(abs, n).filter(kept_by(b)),
    decreases n,
{
    match n {
        Node::KnowDir(p, c, z) => {
            law_filter_files_seq(p, c, b);
            assert(filtered(n, b) matches Node::KnowDir(fp, fc, _) && fc == filtered_seq(c, b) && fp == p);
        },
        Node::File(name, m) => {
            reveal_with_fuel(Seq::filter, 2);
            let one = seq![ListedFile { path: spec_push(abs, name), name, meta: m }];
            assert(one.drop_last() =~= Seq::<ListedFile>::empty());
        },
        _ => {
            reveal_with_fuel(Seq::filter, 1);
        },
    }
}

pub proof fn law_filter_files_seq(abs: Seq<char>, s: Seq<Node>, b: Criteria)
    requires
        !any_unread(s),
    ensures
        files_seq(abs, filtered_seq(s, b)) == files_seq(abs, s).filter(kept_by(b)),
    decreases s,
{
    reveal_with_fuel(Seq::filter, 1);
    if s.len() > 0 {
        let init = s.subrange(0, s.len() - 1);
        let last = s[s.len() - 1];
        assert forall|i: int| 0 <= i < init.len() implies !has_unread_dir(#[trigger] init[i]) by {
            assert(init[i] == s[i]);
        }
        assert(!has_unread_dir(last));
        law_filter_files_seq(abs, init, b);
        let fi = filtered_seq(init, b);
        let lf = files(abs, last);
        Seq::filter_distributes_over_add(files_seq(abs, init), lf, kept_by(b));
        if is_rejected_file(last, b) {
            reveal_with_fuel(Seq::filter, 2);
            assert(lf.drop_last() =~= Seq::<ListedFile>::empty());
            assert(lf.filter(kept_by(b)) =~= Seq::<ListedFile>::empty());
            assert(files_seq(abs, fi) + lf.filter(kept_by(b)) =~= files_seq(abs, fi));
        } else {
            law_filter_files(abs, last, b);
            let r = fi.push(filtered(last, b));
            assert(r.subrange(0, r.len() - 1) =~= fi);
            assert(filtered(last, b).path() == last.path());
        }
    }
}

/// With neither extensions nor a least or a greatest length, filtering changes
/// nothing.
pub proof fn law_unbounded_filter_identity(n: Node)
    ensures
        filtered(n, no_criteria()) == n,
    decreases n,
{
    match n {
        Node::KnowDir(p, c, z) => {
            law_unbounded_filter_identity_seq(c);
            if !any_unread(c) {
                lemma_unbounded_removes_nothing_seq(c);
            }
        },
        _ => {},
    }
}

pub proof fn law_unbounded_filter_identity_seq(s: Seq<Node>)
    ensures
        filtered_seq(s, no_criteria()) == s,
    decreases s,
{
    if s.len() > 0 {
        let init = s.subrange(0, s.len() - 1);
        law_unbounded_filter_identity_seq(init);
        law_unbounded_filter_identity(s[s.len() - 1]);
        assert(init.push(s[s.len() - 1]) =~= s);
    }
}

pub proof fn lemma_unbounded_removes_nothing(n: Node)
    ensures
        removed_size(n, no_criteria()) == 0,
    decreases n,
{
    match n {
        Node::KnowDir(_, c, _) => lemma_unbounded_removes_nothing_seq(c),
        _ => {},
    }
}

pub proof fn lemma_unbounded_removes_nothing_seq(s: Seq<Node>)
    ensures
        removed_size_seq(s, no_criteria()) == 0,
    decreases s,
{
    if s.len() > 0 {
        lemma_unbounded_removes_nothing_seq(s.subrange(0, s.len() - 1));
        lemma_unbounded_removes_nothing(s[s.len() - 1]);
    }
}

/// The full paths of the read directories at or beneath `n`, in the order in
/// which the tree lists them.
pub open spec fn dirs(n: Node) -> Seq<Seq<char>>
    decreases n,
{
    match n {
        Node::KnowDir(p, c, _) => seq![p] + dirs_seq(c),
        _ => Seq::empty(),
    }
}

pub open spec fn dirs_seq(s: Seq<Node>) -> Seq<Seq<char>>
    decreases s,
{
    if s.len() == 0 {
        Seq::empty()
    } else {
        dirs_seq(s.subrange(0, s.len() - 1)) + dirs(s[s.len() - 1])
    }
}

/// Filtering never takes a directory away: a tree without unread directories
/// holds the same read directories, in the same order, before and after.
pub proof fn law_filter_keeps_dirs(n: Node, b: Criteria)
    requires
        !has_unread_dir(n),
    ensures
        dirs(filtered(n, b)) == dirs(n),
    decreases n,
{
    match n {
        Node::KnowDir(p, c, z) => {
            law_filter_keeps_dirs_seq(c, b);
            assert(filtered(n, b) matches Node::KnowDir(fp, fc, _) && fc == filtered_seq(c, b) && fp == p);
        },
        _ => {},
    }
}

pub proof fn law_filter_keeps_dirs_seq(s: Seq<Node>, b: Criteria)
    requires
        !any_unread(s),
    ensures
        dirs_seq(filtered_seq(s, b)) == dirs_seq(s),
    decreases s,
{
    if s.len() > 0 {
        let init = s.subrange(0, s.len() - 1);
        let last = s[s.len() - 1];
        assert forall|i: int| 0 <= i < init.len() implies !has_unread_dir(#[trigger] init[i]) by {
            assert(init[i] == s[i]);
        }
        assert(!has_unread_dir(last));
        law_filter_keeps_dirs_seq(init, b);
        let fi = filtered_seq(init, b);
        if is_rejected_file(last, b) {
            assert(dirs(last) =~= Seq::<Seq<char>>::empty());
            assert(dirs_seq(s) =~= dirs_seq(init));
        } else {
            law_filter_keeps_dirs(last, b);
            let r = fi.push(filtered(last, b));
            assert(r.subrange(0, r.len() - 1) =~= fi);
        }
    }
}

proof fn lemma_filtered_not_rejected(x: Node, b: Criteria)
    requires
        !is_rejected_file(x, b),
    ensures
        !is_rejected_file(filtered(x, b), b),
        !has_unread_dir(x) ==> !has_unread_dir(filtered(x, b)),
        !has_unread_dir(x) ==> removed_size(filtered(x, b), b) == 0,
    decreases x,
{
    match x {
        Node::KnowDir(p, c, z) => {
            if !any_unread(c) {
                lemma_filtered_seq_clean(c, b);
                assert(filtered(x, b) matches Node::KnowDir(_, fc, _) && fc == filtered_seq(c, b));
            }
        },
        _ => {},
    }
}

proof fn lemma_filtered_seq_clean(s: Seq<Node>, b: Criteria)
    requires
        !any_unread(s),
    ensures
        !any_unread(filtered_seq(s, b)),
        removed_size_seq(filtered_seq(s, b), b) == 0,
        forall|i: int| 0 <= i < filtered_seq(s, b).len() ==> !is_rejected_file(#[trigger] filtered_seq(s, b)[i], b),
    decreases s,
{
    if s.len() > 0 {
        let init = s.subrange(0, s.len() - 1);
        let last = s[s.len() - 1];
        assert forall|i: int| 0 <= i < init.len() implies !has_unread_dir(#[trigger] init[i]) by {
            assert(init[i] == s[i]);
        }
        assert(!has_unread_dir(last));
        lemma_filtered_seq_clean(init, b);
        let fi = filtered_seq(init, b);
        if !is_rejected_file(last, b) {
            lemma_filtered_not_rejected(last, b);
            let r = fi.push(filtered(last, b));
            assert(r.subrange(0, r.len() - 1) =~= fi);
            assert forall|i: int| 0 <= i < r.len() implies !has_unread_dir(#[trigger] r[i]) && !is_rejected_file(r[i], b) by {
                if i < fi.len() {
                    assert(r[i] == fi[i]);
                }
            }
        }
    }
}

/// Filtering twice by the same criteria is filtering once.
pub proof fn law_filter_idempotent(n: Node, b: Criteria)
    requires
        !has_unread_dir(n),
    ensures
        filtered(filtered(n, b), b) == filtered(n, b),
    decreases n,
{
    match n {
        Node::KnowDir(p, c, z) => {
            law_filter_idempotent_seq(c, b);
            lemma_filtered_seq_clean(c, b);
            let fc = filtered_seq(c, b);
            assert(filtered(n, b) == Node::KnowDir(p, fc, (z - removed_size_seq(c, b)) as u64));
        },
        _ => {},
    }
}

pub proof fn law_filter_idempotent_seq(s: Seq<Node>, b: Criteria)
    requires
        !any_unread(s),
    ensures
        filtered_seq(filtered_seq(s, b), b) == filtered_seq(s, b),
    decreases s,
{
    if s.len() > 0 {
        let init = s.subrange(0, s.len() - 1);
        let last = s[s.len() - 1];
        assert forall|i: int| 0 <= i < init.len() implies !has_unread_dir(#[trigger] init[i]) by {
            assert(init[i] == s[i]);
        }
        assert(!has_unread_dir(last));
        law_filter_idempotent_seq(init, b);
        lemma_filtered_seq_clean(init, b);
        let fi = filtered_seq(init, b);
        if !is_rejected_file(last, b) {
            lemma_filtered_not_rejected(last, b);
            law_filter_idempotent(last, b);
            let r = fi.push(filtered(last, b));
            assert(r.subrange(0, r.len() - 1) =~= fi);
        }
    }
}

/// The criteria that drop a file exactly where `b1` or `b2` drops it: the
/// extensions that both keep, the greater least length and the smaller
/// greatest length.
pub open spec fn both(b1: Criteria, b2: Criteria) -> Criteria {
    Criteria {
        exts: match (b1.exts, b2.exts) {
            (Some(e1), Some(e2)) => Some(e1.filter(|x: Seq<char>| e2.contains(x))),
            (Some(e1), None) => Some(e1),
            (None, e) => e,
        },
        min: match (b1.min, b2.min) {
            (Some(a), Some(c)) => Some(if a >= c { a } else { c }),
            (Some(a), None) => Some(a),
            (None, m) => m,
        },
        max: match (b1.max, b2.max) {
            (Some(a), Some(c)) => Some(if a <= c { a } else { c }),
            (Some(a), None) => Some(a),
            (None, m) => m,
        },
    }
}

pub proof fn lemma_both_rejects(b1: Criteria, b2: Criteria, name: Seq<char>, len: u64)
    ensures
        rejects(both(b1, b2), name, len) == (rejects(b1, name, len) || rejects(b2, name, len)),
{
    if let (Some(e1), Some(e2)) = (b1.exts, b2.exts) {
        let p = |x: Seq<char>| e2.contains(x);
        let f = e1.filter(p);
        if let Some(x) = extension(name) {
            if f.contains(x) {
                e1.lemma_filter_contains_rev(p, x);
                let i = choose|i: int| 0 <= i < f.len() && f[i] == x;
                e1.lemma_filter_pred(p, i);
            }
            if e1.contains(x) && e2.contains(x) {
                let i = choose|i: int| 0 <= i < e1.len() && e1[i] == x;
                e1.lemma_filter_contains(p, i);
            }
        }
    }
}

/// Filtering by `b1` and then by `b2` is filtering once by criteria `b3` that
/// drop a file exactly where `b1` or `b2` does (such as `both(b1, b2)`), for a
/// tree without unread directories whose sizes are consistent.
pub proof fn law_filter_compose(n: Node, b1: Criteria, b2: Criteria, b3: Criteria)
    requires
        sizes_consistent(n),
        !has_unread_dir(n),
        !is_rejected_file(n, b3),
        forall|name: Seq<char>, len: u64| #[trigger] rejects(b3, name, len) == (rejects(b1, name, len) || rejects(b2, name, len)),
    ensures
        filtered(filtered(n, b1), b2) == filtered(n, b3),
        removed_size(n, b1) + removed_size(filtered(n, b1), b2) == removed_size(n, b3),
    decreases n,
{
    match n {
        Node::KnowDir(p, c, z) => {
            law_filter_compose_seq(c, b1, b2, b3);
            law_filter_keeps_consistent_seq(c, b1);
            lemma_removed_le_total_seq(c, b1);
            crate::base_funcs::lemma_removed_seq_nonneg(c, b1);
            let fc = filtered_seq(c, b1);
            let f1 = filtered(n, b1);
            assert(f1 == Node::KnowDir(p, fc, (z - removed_size_seq(c, b1)) as u64));
            assert(!any_unread(fc));
        },
        Node::File(name, m) => {
            assert(rejects(b3, name, m.len) == (rejects(b1, name, m.len) || rejects(b2, name, m.len)));
        },
        _ => {},
    }
}

pub proof fn law_filter_compose_seq(s: Seq<Node>, b1: Criteria, b2: Criteria, b3: Criteria)
    requires
        all_consistent(s),
        !any_unread(s),
        forall|name: Seq<char>, len: u64| #[trigger] rejects(b3, name, len) == (rejects(b1, name, len) || rejects(b2, name, len)),
    ensures
        filtered_seq(filtered_seq(s, b1), b2) == filtered_seq(s, b3),
        removed_size_seq(s, b1) + removed_size_seq(filtered_seq(s, b1), b2) == removed_size_seq(s, b3),
    decreases s,
{
    if s.len() > 0 {
        let init = s.subrange(0, s.len() - 1);
        let x = s[s.len() - 1];
        assert forall|i: int| 0 <= i < init.len() implies sizes_consistent(#[trigger] init[i])
            && !has_unread_dir(init[i]) by {
            assert(init[i] == s[i]);
        }
        assert(!has_unread_dir(x));
        assert(sizes_consistent(x));
        law_filter_compose_seq(init, b1, b2, b3);
        law_filter_keeps_consistent_seq(init, b1);
        let fi = filtered_seq(init, b1);
        if let Node::File(name, m) = x {
            assert(rejects(b3, name, m.len) == (rejects(b1, name, m.len) || rejects(b2, name, m.len)));
        }
        assert(removed_size_seq(s, b1) == removed_size_seq(init, b1) + removed_size(x, b1));
        assert(removed_size_seq(s, b3) == removed_size_seq(init, b3) + removed_size(x, b3));
        if is_rejected_file(x, b1) {
            assert(filtered_seq(s, b1) == fi);
            assert(removed_size(x, b1) == removed_size(x, b3));
        }
        if !is_rejected_file(x, b1) {
            lemma_filtered_not_rejected(x, b1);
            let y = filtered(x, b1);
            let r = fi.push(y);
            assert(r.subrange(0, r.len() - 1) =~= fi);
            assert(r[r.len() - 1] == y);
            assert(!has_unread_dir(y));
            assert(is_rejected_file(y, b2) == is_rejected_file(x, b2));
            assert(filtered_seq(s, b1) == r);
            assert(removed_size_seq(r, b2) == removed_size_seq(fi, b2) + removed_size(y, b2));
            if !is_rejected_file(x, b3) {
                law_filter_compose(x, b1, b2, b3);
            } else {
                assert(y == x);
                assert(removed_size(x, b1) == 0);
                assert(removed_size(y, b2) == removed_size(x, b3));
            }
        }
    }
}

/// Filtering by `b1` and then by `b2` gives what filtering by `b2` and then by
/// `b1` gives, for a tree without unread directories whose sizes are consistent.
pub proof fn law_filter_commute(n: Node, b1: Criteria, b2: Criteria)
    requires
        sizes_consistent(n),
        !has_unread_dir(n),
        !is_rejected_file(n, b1),
        !is_rejected_file(n, b2),
    ensures
        filtered(filtered(n, b1), b2) == filtered(filtered(n, b2), b1),
        filtered(filtered(n, b1), b2) == filtered(n, both(b1, b2)),
{
    let b3 = both(b1, b2);
    assert forall|name: Seq<char>, len: u64| #[trigger] rejects(b3, name, len) == (rejects(b1, name, len) || rejects(b2, name, len)) by {
        lemma_both_rejects(b1, b2, name, len);
    }
    assert forall|name: Seq<char>, len: u64| #[trigger] rejects(b3, name, len) == (rejects(b2, name, len) || rejects(b1, name, len)) by {
        lemma_both_rejects(b1, b2, name, len);
    }
    if let Node::File(name, m) = n {
        lemma_both_rejects(b1, b2, name, m.len);
    }
    law_filter_compose(n, b1, b2, b3);
    law_filter_compose(n, b2, b1, b3);
}

/// The full paths of the files that the scanned entry `e`, listed in the
/// directory whose full path is `dir`, holds: the directory's path with the
/// names on the way down appended, one after another.
pub open spec fn scan_paths(dir: Seq<char>, e: ScanEntry) -> Seq<Seq<char>>
    decreases e,
{
    match e {
        ScanEntry::Dir(n, ch) => scan_paths_seq(spec_push(dir, n@), ch@),
        ScanEntry::File(n, _) => seq![spec_push(dir, n@)],
        ScanEntry::SymLink(_) => Seq::empty(),
    }
}

pub open spec fn scan_paths_seq(dir: Seq<char>, s: Seq<ScanEntry>) -> Seq<Seq<char>>
    decreases s,
{
    if s.len() == 0 {
        Seq::empty()
    } else {
        scan_paths_seq(dir, s.subrange(0, s.len() - 1)) + scan_paths(dir, s[s.len() - 1])
    }
}

pub proof fn law_new_then_flatten_entry(dir: Seq<char>, e: ScanEntry)
    ensures
        paths_of(files(dir, built(dir, e))) == scan_paths(dir, e),
    decreases e,
{
    match e {
        ScanEntry::Dir(n, ch) => law_new_then_flatten(spec_push(dir, n@), ch@),
        ScanEntry::File(n, m) => {
            assert(paths_of(files(dir, built(dir, e))) =~= seq![spec_push(dir, n@)]);
        },
        ScanEntry::SymLink(_) => {
            assert(paths_of(files(dir, built(dir, e))) =~= Seq::<Seq<char>>::empty());
        },
    }
}

/// The explorer that `Explorer::new` makes of the directory `dir` lists, through
/// `flatten`, the path of every scanned file, `dir` joined with the names on the
/// way down to it, depth first in the order of the listing, and nothing else.
pub proof fn law_new_then_flatten(dir: Seq<char>, s: Seq<ScanEntry>)
    ensures
        paths_of(files_seq(dir, built_seq(dir, s))) == scan_paths_seq(dir, s),
    decreases s,
{
    if s.len() > 0 {
        let init = s.subrange(0, s.len() - 1);
        let last = s[s.len() - 1];
        law_new_then_flatten(dir, init);
        law_new_then_flatten_entry(dir, last);
        let bi = built_seq(dir, init);
        let b = bi.push(built(dir, last));
        assert(b.subrange(0, b.len() - 1) =~= bi);
        assert(files_seq(dir, b) == files_seq(dir, bi) + files(dir, built(dir, last)));
        assert(paths_of(files_seq(dir, bi) + files(dir, built(dir, last))) =~= paths_of(files_seq(dir, bi))
            + paths_of(files(dir, built(dir, last))));
    } else {
        assert(paths_of(files_seq(dir, built_seq(dir, s))) =~= Seq::<Seq<char>>::empty());
    }
}

/// The files that the scanned entry `e`, listed in the directory whose full
/// path is `dir`, holds, each with its path, its name and its metadata as
/// scanned.
pub open spec fn scan_files(dir: Seq<char>, e: ScanEntry) -> Seq<ListedFile>
    decreases e,
{
    match e {
        ScanEntry::Dir(n, ch) => scan_files_seq(spec_push(dir, n@), ch@),
        ScanEntry::File(n, m) => seq![ListedFile { path: spec_push(dir, n@), name: n@, meta: m }],
        ScanEntry::SymLink(_) => Seq::empty(),
    }
}

pub open spec fn scan_files_seq(dir: Seq<char>, s: Seq<ScanEntry>) -> Seq<ListedFile>
    decreases s,
{
    if s.len() == 0 {
        Seq::empty()
    } else {
        scan_files_seq(dir, s.subrange(0, s.len() - 1)) + scan_files(dir, s[s.len() - 1])
    }
}

pub proof fn law_new_keeps_scan_entry(dir: Seq<char>, e: ScanEntry)
    ensures
        files(dir, built(dir, e)) == scan_files(dir, e),
    decreases e,
{
    match e {
        ScanEntry::Dir(n, ch) => law_new_keeps_scan(spec_push(dir, n@), ch@),
        _ => {},
    }
}

/// The explorer that `Explorer::new` makes of a scan lists every scanned file,
/// in the order of the scan, under its path, with its name and with the very
/// metadata that the scan gave it; and nothing else.
pub proof fn law_new_keeps_scan(dir: Seq<char>, s: Seq<ScanEntry>)
    ensures
        files_seq(dir, built_seq(dir, s)) == scan_files_seq(dir, s),
    decreases s,
{
    if s.len() > 0 {
        let init = s.subrange(0, s.len() - 1);
        let last = s[s.len() - 1];
        law_new_keeps_scan(dir, init);
        law_new_keeps_scan_entry(dir, last);
        let bi = built_seq(dir, init);
        let b = bi.push(built(dir, last));
        assert(b.subrange(0, b.len() - 1) =~= bi);
    }
}

/// Every listed file's path ends with the file's whole name.
pub proof fn law_listed_path_ends_with_name(dir: Seq<char>, n: Node)
    ensures
        forall|i: int| 0 <= i < files(dir, n).len() ==> {
            let x = #[trigger] files(dir, n)[i];
            &&& x.path.len() >= x.name.len()
            &&& x.path.subrange(x.path.len() - x.name.len(), x.path.len() as int) == x.name
        },
    decreases n,
{
    match n {
        Node::KnowDir(p, c, _) => {
            law_listed_path_ends_with_name_seq(p, c);
            assert(files(dir, n) == files_seq(p, c));
        },
        Node::File(name, m) => {
            crate::paths::law_push(dir, name);
            assert(files(dir, n)[0] == ListedFile { path: spec_push(dir, name), name, meta: m });
            assert(files(dir, n).len() == 1);
        },
        _ => {},
    }
}

pub proof fn law_listed_path_ends_with_name_seq(dir: Seq<char>, s: Seq<Node>)
    ensures
        forall|i: int| 0 <= i < files_seq(dir, s).len() ==> {
            let x = #[trigger] files_seq(dir, s)[i];
            &&& x.path.len() >= x.name.len()
            &&& x.path.subrange(x.path.len() - x.name.len(), x.path.len() as int) == x.name
        },
    decreases s,
{
    if s.len() > 0 {
        let init = s.subrange(0, s.len() - 1);
        let last = s[s.len() - 1];
        law_listed_path_ends_with_name_seq(dir, init);
        law_listed_path_ends_with_name(dir, last);
        let a = files_seq(dir, init);
        let b = files(dir, last);
        assert forall|i: int| 0 <= i < files_seq(dir, s).len() implies {
            let x = #[trigger] files_seq(dir, s)[i];
            &&& x.path.len() >= x.name.len()
            &&& x.path.subrange(x.path.len() - x.name.len(), x.path.len() as int) == x.name
        } by {
            if i < a.len() {
                assert(files_seq(dir, s)[i] == a[i]);
            } else {
                assert(files_seq(dir, s)[i] == b[i - a.len()]);
            }
        }
    }
}

/// The extension of `name` is one of `exts` exactly where it equals one of them.
pub proof fn lemma_listed_iff(exts: Seq<&str>, name: Seq<char>)
    ensures
        extension_listed(str_views(exts), name) <==> exists|j: int|
            0 <= j < exts.len() && extension(name) == Some(#[trigger] exts[j]@),
{
    let es = str_views(exts);
    if let Some(x) = extension(name) {
        if es.contains(x) {
            let j = choose|j: int| 0 <= j < es.len() && es[j] == x;
            assert(es[j] == exts[j]@);
        }
        if exists|j: int| 0 <= j < exts.len() && extension(name) == Some(#[trigger] exts[j]@) {
            let j = choose|j: int| 0 <= j < exts.len() && extension(name) == Some(#[trigger] exts[j]@);
            assert(es[j] == exts[j]@);
        }
    }
}

/// Filtering a read directory without unread directories keeps exactly the
/// files whose length is at least the least length and at most the greatest
/// length that `f` gives, and whose extension equals one of `f`'s extensions
/// (where it gives them); in order, each under the same path, name and
/// metadata.
pub proof fn law_filter_selects(dir: Seq<char>, n: Node, f: Filter)
    requires
        n is KnowDir,
        !has_unread_dir(n),
    ensures
        files(dir, filtered(n, f.criteria())) == files(dir, n).filter(
            |x: ListedFile|
                (f.size_range@[0] matches Some(min) ==> min <= x.meta.len) && (f.size_range@[1] matches Some(
                    max,
                ) ==> x.meta.len <= max) && (f.extensions matches Some(e) ==> exists|j: int|
                    0 <= j < e@.len() && extension(x.name) == Some(#[trigger] e@[j]@)),
        ),
{
    let b = f.criteria();
    law_filter_files(dir, n, b);
    let direct = |x: ListedFile|
        (f.size_range@[0] matches Some(min) ==> min <= x.meta.len) && (f.size_range@[1] matches Some(max)
            ==> x.meta.len <= max) && (f.extensions matches Some(e) ==> exists|j: int|
            0 <= j < e@.len() && extension(x.name) == Some(#[trigger] e@[j]@));
    assert forall|x: ListedFile| #[trigger] kept_by(b)(x) == direct(x) by {
        if let Some(e) = f.extensions {
            lemma_listed_iff(e@, x.name);
        }
    }
    assert(kept_by(b) =~= direct);
}

/// An unread directory counts as unread, a read directory holds one exactly
/// where one of its entries is or holds one, and a file or a link holds none.
pub proof fn law_unread_dir(n: Node)
    ensures
        n is Dir ==> has_unread_dir(n),
        n is File ==> !has_unread_dir(n),
        n is SymLink ==> !has_unread_dir(n),
        n matches Node::KnowDir(_, c, _) ==> (has_unread_dir(n) <==> exists|i: int|
            0 <= i < c.len() && (#[trigger] c[i] is Dir || has_unread_dir(c[i]))),
{
    if let Node::KnowDir(_, c, _) = n {
        if exists|i: int| 0 <= i < c.len() && (#[trigger] c[i] is Dir || has_unread_dir(c[i])) {
            let i = choose|i: int| 0 <= i < c.len() && (#[trigger] c[i] is Dir || has_unread_dir(c[i]));
            assert(has_unread_dir(c[i]));
        }
    }
}

} // verus!
