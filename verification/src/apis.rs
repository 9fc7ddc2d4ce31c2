//! Entry points that scan, filter and list in one call.
use vstd::prelude::*;

use crate::base_funcs::{files, files_seq, filtered, paths_of, texts, Criteria, Filter};
use crate::laws::{kept_by, law_consistent_filter_safe, law_filter_files, law_filter_keeps_consistent};
use crate::base_funcs::ListedFile;
use crate::laws::scan_files_seq;
use crate::paths::{extension, str_views};
use crate::tree::{built_seq, nodes_of, scan_total_seq, Err0, Explorer, ScanEntry};

verus! {

/// The criteria of a filter that keeps the files with one of `exts`.
pub open spec fn by_extensions(exts: Seq<Seq<char>>) -> Criteria {
    Criteria { exts: Some(exts), min: None, max: None }
}

/// The full paths of the files found under the directory `path`, whose
/// contents are `listing`, whose extension is one of `extensions`; in the
/// order in which the tree lists them.
pub fn get_files_by_extensions(path: &str, listing: &Vec<ScanEntry>, extensions: &[&str]) -> (r: Result<
    Vec<String>,
    Err0,
>)
    requires
        scan_total_seq(listing@) <= u64::MAX,
    ensures
        r matches Ok(v) && texts(v@) == paths_of(
            files_seq(path@, built_seq(path@, listing@)).filter(kept_by(by_extensions(str_views(extensions@)))),
        ),
        r matches Ok(v) && texts(v@) == paths_of(
            scan_files_seq(path@, listing@).filter(
                |x: ListedFile|
                    exists|j: int| 0 <= j < extensions@.len() && extension(x.name) == Some(#[trigger] extensions@[j]@),
            ),
        ),
{
    let mut explorer = Explorer::new(path, listing);
    let mut filter = Filter::default();
    filter.extensions = Some(extensions);
    let ghost b = filter.criteria();
    let ghost before = explorer@;
    proof {
        assert(b == by_extensions(str_views(extensions@)));
        law_consistent_filter_safe(before, b);
        law_filter_keeps_consistent(before, b);
        law_filter_files(path@, before, b);
    }
    explorer.filter(&filter)?;
    let output = explorer.flatten()?;
    proof {
        assert(explorer@ == filtered(before, b));
        assert(files(path@, explorer@) == files_seq(explorer.0@, nodes_of(explorer.1@)));
        let direct = |x: ListedFile|
            (filter.size_range@[0] matches Some(min) ==> min <= x.meta.len) && (filter.size_range@[1] matches Some(max)
                ==> x.meta.len <= max) && (filter.extensions matches Some(e) ==> exists|j: int|
                0 <= j < e@.len() && extension(x.name) == Some(#[trigger] e@[j]@));
        let target = |x: ListedFile|
            exists|j: int| 0 <= j < extensions@.len() && extension(x.name) == Some(#[trigger] extensions@[j]@);
        assert(direct =~= target);
    }
    Ok(output)
}

/// Writes the tree as JSON; it does nothing yet.
pub fn export_json() {
}

/// Writes the list of files as JSON; it does nothing yet.
pub fn flatten_in_json() {
}

pub fn fx() -> (r: Result<(), Err0>)
    ensures
        r is Ok,
{
    Ok(())
}

} // verus!
