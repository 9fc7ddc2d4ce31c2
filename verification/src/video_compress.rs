//! Settings for re-encoding the videos of a directory, the choice of videos,
//! and the encoder command for each.
use vstd::prelude::*;
use vstd::string::*;

use crate::base_funcs::{files, files_seq, filtered, paths_of, texts, Criteria, Filter};
use crate::laws::{kept_by, law_consistent_filter_safe, law_filter_files, law_filter_keeps_consistent};
use crate::base_funcs::ListedFile;
use crate::laws::scan_files_seq;
use crate::paths::{extension, push_path, spec_push, str_views};
use crate::tree::{built_seq, nodes_of, scan_total_seq, Err0, Explorer, Node, ScanEntry};

verus! {

/// The encoder that re-encodes the videos.
#[derive(Debug, Clone, Copy)]
pub enum Method {
    HevcNvenc,
    HevcQSV,
    AV1QSV,
    AV1STV,
}

/// The settings: the encoder program, the method, the least size of a video
/// in MiB, and the extensions of video files.
#[derive(Debug)]
pub struct Config {
    pub ffmpeg_path: String,
    pub method: Method,
    pub min_size_mb: u64,
    pub extensions: Vec<String>,
}

impl Default for Config {
    fn default() -> (r: Self)
        ensures
            r.ffmpeg_path@ == "ffmpeg"@,
            r.method is HevcNvenc,
            r.min_size_mb == 128,
            texts(r.extensions@) == seq!["avi"@, "mkv"@, "mp4"@, "wmv"@, "ts"@, "rmvb"@],
    {
        let mut extensions: Vec<String> = Vec::new();
        extensions.push(String::from_str("avi"));
        extensions.push(String::from_str("mkv"));
        extensions.push(String::from_str("mp4"));
        extensions.push(String::from_str("wmv"));
        extensions.push(String::from_str("ts"));
        extensions.push(String::from_str("rmvb"));
        let r = Self {
            ffmpeg_path: String::from_str("ffmpeg"),
            method: Method::HevcNvenc,
            min_size_mb: 128,
            extensions,
        };
        proof {
            assert(texts(r.extensions@) =~= seq!["avi"@, "mkv"@, "mp4"@, "wmv"@, "ts"@, "rmvb"@]);
        }
        r
    }
}

/// The least length in bytes of a video that is re-encoded.
pub open spec fn min_bytes(c: &Config) -> int {
    c.min_size_mb * 1024 * 1024
}

/// The criteria by which videos are chosen: one of the extensions, and at
/// least the least length.
pub open spec fn video_criteria(c: &Config) -> Criteria {
    Criteria { exts: Some(texts(c.extensions@)), min: Some(min_bytes(c) as u64), max: None }
}

impl Config {
    /// The full paths of the files under the directory `pb0`, whose contents
    /// are `listing`, whose extension is one of `extensions` and that are at
    /// least `min_size_mb` MiB long, in the order in which they are listed.
    pub fn scan_videos(&self, pb0: &str, listing: &Vec<ScanEntry>) -> (r: Result<Vec<String>, Err0>)
        requires
            scan_total_seq(listing@) <= u64::MAX,
            min_bytes(self) <= u64::MAX,
        ensures
            r matches Ok(v) && texts(v@) == paths_of(
                files_seq(pb0@, built_seq(pb0@, listing@)).filter(kept_by(video_criteria(self))),
            ),
            r matches Ok(v) && texts(v@) == paths_of(
                scan_files_seq(pb0@, listing@).filter(
                    |x: ListedFile|
                        self.min_size_mb * 1048576 <= x.meta.len && exists|j: int|
                            0 <= j < self.extensions@.len() && extension(x.name) == Some(
                                #[trigger] self.extensions@[j]@,
                            ),
                ),
            ),
    {
        let mut explorer = Explorer::new(pb0, listing);
        let mut tmp_ext: Vec<&str> = Vec::new();
        let mut i: usize = 0;
        while i < self.extensions.len()
            invariant
                i <= self.extensions.len(),
                tmp_ext@.len() == i,
                forall|j: int| 0 <= j < i ==> #[trigger] tmp_ext@[j]@ == self.extensions@[j]@,
                explorer@ == Node::KnowDir(pb0@, built_seq(pb0@, listing@), scan_total_seq(listing@) as u64),
            decreases self.extensions.len() - i,
        {
            tmp_ext.push(self.extensions[i].as_str());
            i = i + 1;
        }
        let mut filter = Filter::default();
        filter.extensions = Some(tmp_ext.as_slice());
        let min = self.min_size_mb * 1024 * 1024;
        filter.size_range = [Some(min), None];
        let ghost b = filter.criteria();
        let ghost before = explorer@;
        proof {
            assert(str_views(tmp_ext@) =~= texts(self.extensions@));
            assert(b == video_criteria(self));
            law_consistent_filter_safe(before, b);
            law_filter_keeps_consistent(before, b);
            law_filter_files(pb0@, before, b);
        }
        explorer.filter(&filter)?;
        let output = explorer.flatten()?;
        proof {
            assert(explorer@ == filtered(before, b));
            assert(files(pb0@, explorer@) == files_seq(explorer.0@, nodes_of(explorer.1@)));
            let direct = |x: ListedFile|
                (filter.size_range@[0] matches Some(m) ==> m <= x.meta.len) && (filter.size_range@[1] matches Some(
                    max,
                ) ==> x.meta.len <= max) && (filter.extensions matches Some(e) ==> exists|j: int|
                    0 <= j < e@.len() && extension(x.name) == Some(#[trigger] e@[j]@));
            let target = |x: ListedFile|
                self.min_size_mb * 1048576 <= x.meta.len && exists|j: int|
                    0 <= j < self.extensions@.len() && extension(x.name) == Some(#[trigger] self.extensions@[j]@);
            assert forall|x: ListedFile| #[trigger] direct(x) == target(x) by {
                if (exists|j: int| 0 <= j < self.extensions@.len() && extension(x.name) == Some(#[trigger] self.extensions@[j]@)) {
                    let j = choose|j: int| 0 <= j < self.extensions@.len() && extension(x.name) == Some(#[trigger] self.extensions@[j]@);
                    assert(tmp_ext@[j]@ == self.extensions@[j]@);
                }
                if (exists|j: int| 0 <= j < tmp_ext@.len() && extension(x.name) == Some(#[trigger] tmp_ext@[j]@)) {
                    let j = choose|j: int| 0 <= j < tmp_ext@.len() && extension(x.name) == Some(#[trigger] tmp_ext@[j]@);
                    assert(tmp_ext@[j]@ == self.extensions@[j]@);
                }
            }
            assert(direct =~= target);
        }
        Ok(output)
    }

    /// The command that re-encodes the video at `input`, whose file name is
    /// `file_name`, into the directory `output_dir`: the path of the new video
    /// (the file name with `-nvenc.mp4` added) and the encoder's arguments.
    /// Only `HevcNvenc` is carried out; for the other methods there is none.
    pub fn encode_command(&self, input: &str, file_name: &str, output_dir: &str) -> (r: Option<
        (String, Vec<String>),
    >)
        ensures
            r is Some <==> self.method is HevcNvenc,
            r matches Some(c) ==> c.0@ == spec_push(output_dir@, file_name@ + "-nvenc.mp4"@),
            r matches Some(c) ==> texts(c.1@) == seq![
                "-i"@,
                input@,
                "-c:v"@,
                "hevc_nvenc"@,
                "-c:a"@,
                "aac"@,
                "-b:a"@,
                "192k"@,
                "-qp"@,
                "25"@,
                c.0@,
            ],
    {
        match self.method {
            Method::HevcNvenc => {
                let mut new_file_name = String::from_str(file_name);
                new_file_name.append("-nvenc.mp4");
                let out = push_path(output_dir, new_file_name.as_str());
                let mut args: Vec<String> = Vec::new();
                args.push(String::from_str("-i"));
                args.push(String::from_str(input));
                args.push(String::from_str("-c:v"));
                args.push(String::from_str("hevc_nvenc"));
                args.push(String::from_str("-c:a"));
                args.push(String::from_str("aac"));
                args.push(String::from_str("-b:a"));
                args.push(String::from_str("192k"));
                args.push(String::from_str("-qp"));
                args.push(String::from_str("25"));
                args.push(out.clone());
                proof {
                    assert(texts(args@) =~= seq![
                        "-i"@,
                        input@,
                        "-c:v"@,
                        "hevc_nvenc"@,
                        "-c:a"@,
                        "aac"@,
                        "-b:a"@,
                        "192k"@,
                        "-qp"@,
                        "25"@,
                        out@,
                    ]);
                }
                Some((out, args))
            },
            _ => None,
        }
    }
}

} // verus!
