use std::time::{Duration, SystemTime};

use explorer_lib::tree::{MetaData, ScanEntry};
use explorer_lib::video_compress::{Config, Method};

fn file(name: &str, len: u64) -> ScanEntry {
    let t = SystemTime::UNIX_EPOCH + Duration::from_secs(1);
    ScanEntry::File(name.to_string(), MetaData { len, permissions: false, modified: t, accessed: t, created: t })
}

#[test]
fn config_default_values() {
    let c = Config::default();
    assert_eq!(c.ffmpeg_path, "ffmpeg");
    assert!(matches!(c.method, Method::HevcNvenc));
    assert_eq!(c.min_size_mb, 128);
    assert_eq!(c.extensions, vec!["avi", "mkv", "mp4", "wmv", "ts", "rmvb"]);
}

#[test]
fn scan_videos_keeps_files_of_at_least_min_size() {
    let mut c = Config::default();
    c.min_size_mb = 1;
    let listing = vec![
        file("small.mp4", 1024 * 1024 - 1),
        file("exact.mkv", 1024 * 1024),
        ScanEntry::Dir(
            "s".to_string(),
            vec![file("big.avi", 5 * 1024 * 1024), file("tiny.ts", 3), file("big.txt", 9 * 1024 * 1024)],
        ),
        file("movie.rmvb", 2 * 1024 * 1024),
    ];
    let v = c.scan_videos("/videos", &listing).unwrap();
    assert_eq!(v, vec!["/videos/exact.mkv", "/videos/s/big.avi", "/videos/movie.rmvb"]);
}

#[test]
fn encode_command_for_nvenc() {
    let c = Config::default();
    let (out, args) = c.encode_command("/in/a.mp4", "a.mp4", "/out").unwrap();
    assert_eq!(out, "/out/a.mp4-nvenc.mp4");
    assert_eq!(
        args,
        vec![
            "-i", "/in/a.mp4", "-c:v", "hevc_nvenc", "-c:a", "aac", "-b:a", "192k", "-qp", "25",
            "/out/a.mp4-nvenc.mp4"
        ]
    );
}

#[test]
fn encode_command_for_other_methods() {
    for m in [Method::HevcQSV, Method::AV1QSV, Method::AV1STV] {
        let mut c = Config::default();
        c.method = m;
        assert!(c.encode_command("/in/a.mp4", "a.mp4", "/out").is_none());
    }
}
