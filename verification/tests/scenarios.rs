use std::error::Error;
use std::time::{Duration, SystemTime};

use explorer_lib::base_funcs::Filter;
use explorer_lib::tree::{Explorer, MetaData, ScanEntry};

fn meta(len: u64) -> MetaData {
    let t = SystemTime::UNIX_EPOCH + Duration::from_secs(1_660_000_000);
    MetaData { len, permissions: false, modified: t, accessed: t, created: t }
}

fn file(name: &str, len: u64) -> ScanEntry {
    ScanEntry::File(name.to_string(), meta(len))
}

/// The listing of the directory that the tests explore.
fn listing() -> Vec<ScanEntry> {
    vec![
        file("a.jpg", 60_000_000),
        file("b.jpg", 1_000),
        ScanEntry::Dir(
            "sub".to_string(),
            vec![file("c.jpg", 70_000_000), ScanEntry::SymLink("link".to_string())],
        ),
    ]
}

#[test]
fn core_f0() -> Result<(), Box<dyn Error>> {
    let x = Explorer::new("/home/oelabs/Downloads/videotest/", &listing());
    println!("{:?}", x);
    Ok(())
}

#[test]
fn base_funcs_f0() -> Result<(), Box<dyn Error>> {
    let x = Explorer::new("/home/oelabs/Downloads/darktable_exported/", &listing());
    let x2 = x.flatten().map_err(|e| e.to_string())?;
    println!("{:?}", x2);
    Ok(())
}

#[test]
fn f1() -> Result<(), Box<dyn Error>> {
    for i0 in (0..10).rev() {
        println!("{}", i0)
    }
    Ok(())
}

#[test]
fn f2() -> Result<(), Box<dyn Error>> {
    let mut x = Explorer::new("/home/oelabs/Downloads/darktable_exported/", &listing());
    println!("{:?}", x);
    let mut filter = Filter::default();
    filter.size_range = [(Some(50000000)), None];
    x.filter(&filter).map_err(|e| e.to_string())?;
    let x2 = x.flatten().map_err(|e| e.to_string())?;
    println!("{:?}", x);
    println!("{:?}", x2);
    Ok(())
}
