use std::io::{Cursor, Write};

use shellfs::archive::{build_tree, get_zip_contents, mount_archive, ArchiveEntry, ArchiveError};
use shellfs::eager::VirtualFilesystem;
use shellfs::path::{DirPath, FilePath, NextDir};
use shellfs::store::Content;
use zip::write::SimpleFileOptions;
use zip::{AesMode, CompressionMethod, ZipWriter};

fn dir(parts: &[&str]) -> DirPath {
    DirPath(parts.iter().map(|p| NextDir::In(p.to_string())).collect())
}

fn secret_archive(password: &str) -> Vec<u8> {
    let mut w = ZipWriter::new(Cursor::new(Vec::new()));
    let plain = SimpleFileOptions::default().compression_method(CompressionMethod::Stored);
    let locked = plain.with_aes_encryption(AesMode::Aes256, password);
    w.add_directory("secret_lair/", plain).unwrap();
    w.add_directory("secret_lair/plans/", plain).unwrap();
    w.start_file("secret_lair/plans/world.txt", locked).unwrap();
    w.write_all(b"take over").unwrap();
    w.start_file("secret_lair/REDACTED", locked).unwrap();
    w.write_all(b"hidden").unwrap();
    w.finish().unwrap().into_inner()
}

fn entry(name: &str, text: Option<&str>) -> ArchiveEntry {
    ArchiveEntry { name: name.to_string(), is_dir: name.ends_with('/'), text: text.map(|t| t.to_string()) }
}

#[test]
fn archive_extracts_with_the_password() {
    let tree = get_zip_contents(secret_archive("hunter2"), b"hunter2").unwrap();
    let top = tree.cached_directories(&DirPath::root()).unwrap();
    assert_eq!(top.sorted_names(), vec!["plans".to_string()]);
    assert!(tree.cached_contents(&DirPath::root()).unwrap().sorted_names().is_empty());
    let plans = tree.cached_contents(&dir(&["plans"])).unwrap();
    assert!(matches!(plans.get("world.txt"), Some(Content::InMemory(t)) if t == "take over"));
    let mut fs = VirtualFilesystem::new();
    mount_archive(&mut fs, &dir(&["secret_lair"]), &tree);
    let fp = FilePath::new(dir(&["secret_lair", "plans"]), "world.txt".to_string());
    assert!(matches!(fs.get_content(&fp), Some(Content::InMemory(t)) if t == "take over"));
}

#[test]
fn archive_rejects_a_wrong_password_or_bad_bytes() {
    assert!(matches!(get_zip_contents(secret_archive("hunter2"), b"guess"), Err(ArchiveError::Password)));
    assert!(matches!(get_zip_contents(b"not an archive".to_vec(), b"x"), Err(ArchiveError::Malformed)));
}

#[test]
fn archive_tree_from_entries() {
    let ok = build_tree(&vec![
        entry("secret_lair/", None),
        entry("secret_lair/a/", None),
        entry("secret_lair/a/b.txt", Some("B")),
        entry("secret_lair/REDACTED", None),
    ])
    .unwrap();
    assert!(ok.cached_directories(&DirPath::root()).unwrap().contains("a"));
    assert!(matches!(ok.cached_contents(&dir(&["a"])).unwrap().get("b.txt"), Some(Content::InMemory(_))));
    assert!(matches!(build_tree(&vec![entry("x/y.txt", Some("1"))]), Err(ArchiveError::Malformed)));
    assert!(matches!(build_tree(&vec![entry("x/y/", None)]), Err(ArchiveError::Malformed)));
    assert!(matches!(build_tree(&vec![entry("y.txt", None)]), Err(ArchiveError::Password)));
}
