use std::time::{Duration, SystemTime};

use explorer_lib::apis::{export_json, flatten_in_json, fx, get_files_by_extensions};
use explorer_lib::base_funcs::Filter;
use explorer_lib::paths::{has_listed_extension, push_path};
use explorer_lib::tree::{scan_total_size, Err0, Explorer, MetaData, PathType, ScanEntry};
use explorer_lib::{EXT_AUDIOS, EXT_COMPRESSED, EXT_DOCUMENTS, EXT_PHOTOS, EXT_VIDEOS};

fn meta(len: u64) -> MetaData {
    let t = SystemTime::UNIX_EPOCH + Duration::from_secs(1_700_000_000);
    MetaData { len, permissions: true, modified: t, accessed: t, created: t }
}

fn file(name: &str, len: u64) -> ScanEntry {
    ScanEntry::File(name.to_string(), meta(len))
}

fn sample() -> Vec<ScanEntry> {
    vec![
        file("a.txt", 10),
        ScanEntry::Dir(
            "docs".to_string(),
            vec![
                file("b.pdf", 200),
                ScanEntry::Dir("deep".to_string(), vec![file("c.pdf", 3000)]),
                ScanEntry::SymLink("l".to_string()),
            ],
        ),
        file("d.mp4", 40000),
        ScanEntry::SymLink("broken".to_string()),
    ]
}

fn total_of(t: &PathType) -> u64 {
    match t {
        PathType::File(_, m) => m.len,
        PathType::KnowDir(_, v, _) => v.iter().map(total_of).sum(),
        _ => 0,
    }
}

fn check_consistent(t: &PathType) {
    if let PathType::KnowDir(_, v, s) = t {
        assert_eq!(*s, total_of(t));
        for c in v {
            check_consistent(c);
        }
    }
}

#[test]
fn push_path_joins_with_one_separator() {
    assert_eq!(push_path("/a", "b"), "/a/b");
    assert_eq!(push_path("/a/", "b"), "/a/b");
    assert_eq!(push_path("", "b"), "b");
    assert_eq!(push_path("/a", "/c/d"), "/c/d");
    assert_eq!(push_path("rel", "x"), "rel/x");
    assert_eq!(push_path("/a", ""), "/a/");
}

#[test]
fn new_records_sizes_and_full_paths() {
    let x = Explorer::new("/root/dir", &sample());
    assert_eq!(x.0, "/root/dir");
    assert_eq!(x.2, 43210);
    assert_eq!(x.1.len(), 4);
    match &x.1[1] {
        PathType::KnowDir(p, v, s) => {
            assert_eq!(p, "/root/dir/docs");
            assert_eq!(*s, 3200);
            match &v[1] {
                PathType::KnowDir(p2, v2, s2) => {
                    assert_eq!(p2, "/root/dir/docs/deep");
                    assert_eq!(*s2, 3000);
                    assert_eq!(v2.len(), 1);
                }
                other => panic!("unexpected {:?}", other),
            }
        }
        other => panic!("unexpected {:?}", other),
    }
    assert!(matches!(&x.1[0], PathType::File(n, m) if n == "a.txt" && m.len == 10));
    assert!(matches!(&x.1[3], PathType::SymLink(n) if n == "broken"));
}

#[test]
fn new_keeps_every_directory_size_consistent() {
    let x = Explorer::new("/r", &sample());
    let sum: u64 = x.1.iter().map(total_of).sum();
    assert_eq!(x.2, sum);
    for e in &x.1 {
        check_consistent(e);
    }
}

#[test]
fn new_of_empty_listing() {
    let x = Explorer::new("/empty", &vec![]);
    assert_eq!(x.2, 0);
    assert!(x.1.is_empty());
    assert_eq!(x.flatten().unwrap(), Vec::<String>::new());
}

#[test]
fn flatten_lists_files_depth_first_without_links() {
    let x = Explorer::new("/root/dir", &sample());
    let v = x.flatten().unwrap();
    assert_eq!(
        v,
        vec![
            "/root/dir/a.txt",
            "/root/dir/docs/b.pdf",
            "/root/dir/docs/deep/c.pdf",
            "/root/dir/d.mp4"
        ]
    );
}

#[test]
fn flatten_with_trailing_separator_on_root() {
    let x = Explorer::new("/root/dir/", &vec![file("f", 1)]);
    assert_eq!(x.flatten().unwrap(), vec!["/root/dir/f"]);
}

#[test]
fn flatten_of_relative_root_uses_each_directory_path_once() {
    let x = Explorer::new(
        "rel",
        &vec![ScanEntry::Dir("s".to_string(), vec![file("f", 1), ScanEntry::Dir("t".to_string(), vec![file("g", 2)])])],
    );
    assert_eq!(x.flatten().unwrap(), vec!["rel/s/f", "rel/s/t/g"]);
}

#[test]
fn flatten_fails_on_unread_directory() {
    let x = Explorer(
        "/r".to_string(),
        vec![PathType::File("a".to_string(), meta(1)), PathType::Dir("d".to_string())],
        1,
    );
    let e = x.flatten().unwrap_err();
    assert_eq!(e.to_string(), "why a not readed dir here");
}

#[test]
fn filter_by_least_size_removes_small_files_and_lowers_sizes() {
    let mut x = Explorer::new("/r", &sample());
    let mut f = Filter::default();
    f.size_range = [Some(300), None];
    x.filter(&f).unwrap();
    assert_eq!(x.2, 43000);
    assert_eq!(x.flatten().unwrap(), vec!["/r/docs/deep/c.pdf", "/r/d.mp4"]);
    match &x.1[0] {
        PathType::KnowDir(p, v, s) => {
            assert_eq!(p, "/r/docs");
            assert_eq!(*s, 3000);
            assert_eq!(v.len(), 2);
        }
        other => panic!("unexpected {:?}", other),
    }
    let sum: u64 = x.1.iter().map(total_of).sum();
    assert_eq!(x.2, sum);
    for e in &x.1 {
        check_consistent(e);
    }
}

#[test]
fn filter_by_greatest_size() {
    let mut x = Explorer::new("/r", &sample());
    let mut f = Filter::default();
    f.size_range = [None, Some(200)];
    x.filter(&f).unwrap();
    assert_eq!(x.2, 210);
    assert_eq!(x.flatten().unwrap(), vec!["/r/a.txt", "/r/docs/b.pdf"]);
}

#[test]
fn filter_bounds_are_inclusive() {
    let mut x = Explorer::new("/r", &vec![file("a", 5), file("b", 6), file("c", 7)]);
    let mut f = Filter::default();
    f.size_range = [Some(5), Some(6)];
    x.filter(&f).unwrap();
    assert_eq!(x.flatten().unwrap(), vec!["/r/a", "/r/b"]);
    assert_eq!(x.2, 11);
}

#[test]
fn filter_keeps_directories_even_when_emptied() {
    let mut x = Explorer::new("/r", &sample());
    let mut f = Filter::default();
    f.size_range = [Some(1_000_000), None];
    x.filter(&f).unwrap();
    assert_eq!(x.2, 0);
    assert!(x.flatten().unwrap().is_empty());
    assert_eq!(x.1.len(), 2);
    assert!(matches!(&x.1[0], PathType::KnowDir(p, _, 0) if p == "/r/docs"));
    assert!(matches!(&x.1[1], PathType::SymLink(_)));
}

#[test]
fn filter_twice_is_filter_once() {
    let mut f = Filter::default();
    f.size_range = [Some(300), Some(10000)];
    let mut x = Explorer::new("/r", &sample());
    x.filter(&f).unwrap();
    let once = (x.flatten().unwrap(), x.2);
    x.filter(&f).unwrap();
    assert_eq!((x.flatten().unwrap(), x.2), once);
}

#[test]
fn default_filter_changes_nothing() {
    let mut x = Explorer::new("/r", &sample());
    let before = format!("{:?}", x);
    x.filter(&Filter::default()).unwrap();
    assert_eq!(format!("{:?}", x), before);
}

#[test]
fn filter_stops_at_unread_directory() {
    // Entries are taken from the last one back: the file after the unread
    // directory goes, the one before it stays, and the size is not lowered.
    let mut x = Explorer(
        "/r".to_string(),
        vec![
            PathType::File("small1".to_string(), meta(1)),
            PathType::Dir("d".to_string()),
            PathType::File("small2".to_string(), meta(2)),
        ],
        3,
    );
    let mut f = Filter::default();
    f.size_range = [Some(100), None];
    let e = x.filter(&f).unwrap_err();
    assert_eq!(e.to_string(), "why a not readed dir here");
    assert_eq!(x.2, 3);
    assert_eq!(x.1.len(), 2);
    assert!(matches!(&x.1[0], PathType::File(n, _) if n == "small1"));
    assert!(matches!(&x.1[1], PathType::Dir(n) if n == "d"));
}

#[test]
fn get_type_classifies() {
    let m = meta(9);
    assert!(matches!(PathType::get_type("d", true, Some(m), true), Ok(PathType::Dir(n)) if n == "d"));
    assert!(matches!(PathType::get_type("f", false, Some(m), true), Ok(PathType::File(n, mm)) if n == "f" && mm.len == 9));
    assert!(matches!(PathType::get_type("l", false, None, true), Ok(PathType::SymLink(n)) if n == "l"));
    let e = PathType::get_type("x", false, None, false).unwrap_err();
    assert_eq!(e.to_string(), "msg: unknow pathtype");
    assert_eq!(e.description(), "msg: unknow pathtype");
}

#[test]
fn get_path_of_each_kind() {
    assert_eq!(PathType::Dir("d".to_string()).get_path(), "d");
    assert_eq!(PathType::File("f".to_string(), meta(1)).get_path(), "f");
    assert_eq!(PathType::KnowDir("/a/k".to_string(), vec![], 0).get_path(), "/a/k");
    assert_eq!(PathType::SymLink("s".to_string()).get_path(), "s");
}

#[test]
fn metadata_getters() {
    let m = meta(77);
    assert_eq!(m.get_size(), 77);
    assert!(m.get_permissions());
    let t = SystemTime::UNIX_EPOCH + Duration::from_secs(1_700_000_000);
    assert_eq!(m.get_times(), (t, t, t));
}

#[test]
fn err0_message() {
    let e = Err0::new("boom");
    assert_eq!(e.to_string(), "boom");
    assert_eq!(e.description(), "boom");
}

#[test]
fn get_files_by_extensions_lists_files_with_a_listed_extension() {
    let v = get_files_by_extensions("/r", &sample(), &["pdf"]).unwrap();
    assert_eq!(v, vec!["/r/docs/b.pdf", "/r/docs/deep/c.pdf"]);
    let v = get_files_by_extensions("/r", &sample(), &["mp4", "txt"]).unwrap();
    assert_eq!(v, vec!["/r/a.txt", "/r/d.mp4"]);
    let v = get_files_by_extensions("/r", &sample(), &[]).unwrap();
    assert!(v.is_empty());
}

#[test]
fn extension_of_names() {
    assert!(has_listed_extension("a.txt", &["txt"]));
    assert!(!has_listed_extension("a.txt", &["mp4"]));
    assert!(has_listed_extension("a.b.c", &["c"]));
    assert!(!has_listed_extension("a.b.c", &["b.c"]));
    assert!(!has_listed_extension(".profile", &["profile"]));
    assert!(has_listed_extension(".x.profile", &["profile"]));
    assert!(!has_listed_extension("noext", &["noext", ""]));
    assert!(has_listed_extension("x.", &[""]));
    assert!(!has_listed_extension("..", &[""]));
    assert!(!has_listed_extension("a.TXT", &["txt"]));
}

#[test]
fn filter_by_extension_drops_other_files_and_lowers_sizes() {
    let mut x = Explorer::new("/r", &sample());
    let mut f = Filter::default();
    let exts = ["pdf"];
    f.extensions = Some(&exts[..]);
    x.filter(&f).unwrap();
    assert_eq!(x.2, 3200);
    assert_eq!(x.flatten().unwrap(), vec!["/r/docs/b.pdf", "/r/docs/deep/c.pdf"]);
    assert_eq!(x.1.len(), 2);
    for e in &x.1 {
        check_consistent(e);
    }
}

#[test]
fn filter_by_extension_and_size_together() {
    let mut x = Explorer::new("/r", &sample());
    let mut f = Filter::default();
    let exts = ["pdf", "txt"];
    f.extensions = Some(&exts[..]);
    f.size_range = [Some(100), Some(1000)];
    x.filter(&f).unwrap();
    assert_eq!(x.flatten().unwrap(), vec!["/r/docs/b.pdf"]);
    assert_eq!(x.2, 200);
}

#[test]
fn two_filters_in_either_order() {
    let exts = ["pdf", "mp4"];
    let mut f1 = Filter::default();
    f1.extensions = Some(&exts[..]);
    let mut f2 = Filter::default();
    f2.size_range = [Some(300), None];
    let mut a = Explorer::new("/r", &sample());
    a.filter(&f1).unwrap();
    a.filter(&f2).unwrap();
    let mut b = Explorer::new("/r", &sample());
    b.filter(&f2).unwrap();
    b.filter(&f1).unwrap();
    assert_eq!(format!("{:?}", a), format!("{:?}", b));
    let mut g = Filter::default();
    g.extensions = Some(&exts[..]);
    g.size_range = [Some(300), None];
    let mut c = Explorer::new("/r", &sample());
    c.filter(&g).unwrap();
    assert_eq!(format!("{:?}", a), format!("{:?}", c));
    assert_eq!(a.flatten().unwrap(), vec!["/r/docs/deep/c.pdf", "/r/d.mp4"]);
}

#[test]
fn scan_total_size_and_overflow() {
    assert_eq!(scan_total_size(&sample()), Some(43210));
    assert_eq!(scan_total_size(&vec![]), Some(0));
    let big = vec![file("a", u64::MAX), ScanEntry::Dir("d".to_string(), vec![file("b", 1)])];
    assert_eq!(scan_total_size(&big), None);
    assert_eq!(scan_total_size(&vec![file("a", u64::MAX)]), Some(u64::MAX));
}

#[test]
fn placeholders_succeed() {
    export_json();
    flatten_in_json();
    assert!(fx().is_ok());
    let x = Explorer::new("/r", &sample());
    assert!(x.same_name_finder().is_ok());
}

#[test]
fn extension_lists() {
    assert_eq!(EXT_PHOTOS.len(), 15);
    assert_eq!(EXT_VIDEOS, &["avi", "mkv", "mp4", "wmv", "ts", "rmvb"]);
    assert_eq!(EXT_AUDIOS, &["mp3", "aac", "ape", "flac"]);
    assert_eq!(EXT_DOCUMENTS, &["xls", "doc", "ppt", "odt", "pdf"]);
    assert_eq!(EXT_COMPRESSED, &["7z", "rar", "zip", "tar", "gz", "xz"]);
    assert_eq!(EXT_PHOTOS[0], "jpg");
    assert_eq!(EXT_PHOTOS[14], "ico");
}

#[test]
fn filter_default_values() {
    let f = Filter::default();
    assert!(f.extensions.is_none());
    assert_eq!(f.size_range, [None, None]);
    assert!(f.name_slice.is_none());
    assert_eq!(f.time, [None; 6]);
    assert!(!f.read_only);
    assert!(!f.symlink);
}
