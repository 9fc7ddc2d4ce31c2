//! A file-tree explorer: a scanned directory tree with the total size of
//! every directory, listing of its files and filtering of its files by size.
use vstd::prelude::*;

pub mod apis;
pub mod base_funcs;
pub mod laws;
pub mod paths;
pub mod tree;
pub mod video_compress;

pub use apis::{export_json, flatten_in_json, fx, get_files_by_extensions};
pub use base_funcs::Filter;
pub use tree::{Err0, Explorer, MetaData, PathType, ScanEntry};

verus! {

pub const EXT_PHOTOS: &'static [&'static str; 15] = &[
    "jpg",
    "bmp",
    "heif",
    "avif",
    "tiff",
    "png",
    "jp2",
    "webp",
    "heic",
    "gif",
    "pnm",
    "dds",
    "tga",
    "exr",
    "ico",
];

pub const EXT_VIDEOS: &'static [&'static str; 6] = &["avi", "mkv", "mp4", "wmv", "ts", "rmvb"];

pub const EXT_AUDIOS: &'static [&'static str; 4] = &["mp3", "aac", "ape", "flac"];

pub const EXT_DOCUMENTS: &'static [&'static str; 5] = &["xls", "doc", "ppt", "odt", "pdf"];

pub const EXT_COMPRESSED: &'static [&'static str; 6] = &["7z", "rar", "zip", "tar", "gz", "xz"];

} // verus!
