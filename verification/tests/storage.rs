//! Scenario tests for the storage manager: upload, download, list, delete.

use rustdrive::meta::{FileMeta, StorageError};
use rustdrive::store::{DestDir, SourceFile, Storage};

fn src(name: &str, content: &[u8]) -> SourceFile {
    SourceFile { name: Some(name.to_string()), content: content.to_vec() }
}

fn empty_dir() -> DestDir {
    DestDir { is_dir: true, entries: Vec::new() }
}

#[test]
fn fresh_list_is_empty() {
    let s = Storage::new();
    let listed: Vec<FileMeta> = s.get_files();
    assert_eq!(listed.len(), 0);
}

#[test]
fn upload_then_download_round_trip() {
    let mut s = Storage::new();
    let rec = s.upload(Some(&src("a.txt", b"hello"))).unwrap();
    assert_eq!(rec.filename, "a.txt");
    assert_eq!(rec.size, 5);
    let mut dest = empty_dir();
    s.download("a.txt", &mut dest).unwrap();
    assert_eq!(dest.entries.len(), 1);
    assert_eq!(dest.entries[0].name, "a.txt");
    assert_eq!(dest.entries[0].content, b"hello".to_vec());
}

#[test]
fn upload_twice_prefixes_second() {
    let content = vec![7u8; 1024];
    let mut s = Storage::new();
    let first = s.upload(Some(&SourceFile {
        name: Some("report.pdf".to_string()),
        content: content.clone(),
    }))
    .unwrap();
    assert_eq!(first.filename, "report.pdf");
    assert_eq!(first.size, 1024);
    let second = s.upload(Some(&SourceFile {
        name: Some("report.pdf".to_string()),
        content: content.clone(),
    }))
    .unwrap();
    assert_eq!(second.filename, "1_report.pdf");
    assert_eq!(second.size, 1024);
    let listed = s.get_files();
    assert_eq!(listed.len(), 2);
    assert_eq!(listed[0].filename, "report.pdf");
    assert_eq!(listed[0].size, 1024);
    assert_eq!(listed[1].filename, "1_report.pdf");
    assert_eq!(listed[1].size, 1024);
}

#[test]
fn upload_missing_source_is_invalid_input() {
    let mut s = Storage::new();
    let r = s.upload(None);
    assert!(matches!(r, Err(StorageError::InvalidInput)));
    assert_eq!(s.get_files().len(), 0);
}

#[test]
fn upload_without_name_uses_fallback() {
    let mut s = Storage::new();
    let rec = s.upload(Some(&SourceFile { name: None, content: b"xy".to_vec() })).unwrap();
    assert_eq!(rec.filename, "file.txt");
    assert_eq!(rec.size, 2);
}

#[test]
fn upload_sizes_match_sources() {
    let mut s = Storage::new();
    let names = ["one.bin", "two.bin", "three.bin"];
    let sizes = [1usize, 200, 0];
    for (name, n) in names.iter().zip(sizes.iter()) {
        let rec = s.upload(Some(&src(name, &vec![0u8; *n]))).unwrap();
        assert_eq!(rec.size, *n as u64);
    }
    let listed = s.get_files();
    assert_eq!(listed.len(), 3);
    for (k, n) in sizes.iter().enumerate() {
        assert_eq!(listed[k].size, *n as u64);
        assert_eq!(listed[k].filename, names[k]);
    }
}

#[test]
fn repeated_collisions_take_smallest_free_prefix() {
    let mut s = Storage::new();
    let mut seen: Vec<String> = Vec::new();
    for _ in 0..4 {
        let rec = s.upload(Some(&src("data", b"z"))).unwrap();
        seen.push(rec.filename);
    }
    assert_eq!(seen, vec!["data", "1_data", "2_data", "3_data"]);
}

#[test]
fn download_without_root_is_not_found() {
    let s = Storage::new();
    let mut dest = empty_dir();
    let r = s.download("a.txt", &mut dest);
    assert!(matches!(r, Err(StorageError::NotFound)));
    assert_eq!(dest.entries.len(), 0);
}

#[test]
fn download_missing_file_is_not_found() {
    let mut s = Storage::new();
    s.upload(Some(&src("here.txt", b"x"))).unwrap();
    let mut dest = empty_dir();
    let r = s.download("absent.txt", &mut dest);
    assert!(matches!(r, Err(StorageError::NotFound)));
    assert_eq!(dest.entries.len(), 0);
}

#[test]
fn download_to_non_directory_is_invalid_input() {
    let mut s = Storage::new();
    s.upload(Some(&src("here.txt", b"x"))).unwrap();
    let mut dest = DestDir { is_dir: false, entries: Vec::new() };
    let r = s.download("here.txt", &mut dest);
    assert!(matches!(r, Err(StorageError::InvalidInput)));
}

#[test]
fn download_overwrites_existing_destination_file() {
    let mut s = Storage::new();
    s.upload(Some(&src("a.txt", b"new content"))).unwrap();
    let mut dest = empty_dir();
    dest.entries.push(rustdrive::store::DiskFile {
        name: "a.txt".to_string(),
        content: b"old content".to_vec(),
    });
    s.download("a.txt", &mut dest).unwrap();
    assert_eq!(dest.entries.len(), 1);
    assert_eq!(dest.entries[0].content, b"new content".to_vec());
}

#[test]
fn delete_missing_name_fails_and_changes_nothing() {
    let mut s = Storage::new();
    s.upload(Some(&src("keep.txt", b"abc"))).unwrap();
    let r = s.delete_files(&vec!["nope.txt".to_string()]);
    assert!(matches!(r, Err(StorageError::NotFound)));
    let listed = s.get_files();
    assert_eq!(listed.len(), 1);
    assert_eq!(listed[0].filename, "keep.txt");
    let mut dest = empty_dir();
    s.download("keep.txt", &mut dest).unwrap();
    assert_eq!(dest.entries[0].content, b"abc".to_vec());
}

#[test]
fn delete_removes_file_and_record() {
    let mut s = Storage::new();
    s.upload(Some(&src("a.txt", b"1"))).unwrap();
    s.upload(Some(&src("b.txt", b"22"))).unwrap();
    s.delete_files(&vec!["a.txt".to_string()]).unwrap();
    let listed = s.get_files();
    assert_eq!(listed.len(), 1);
    assert_eq!(listed[0].filename, "b.txt");
    let mut dest = empty_dir();
    let r = s.download("a.txt", &mut dest);
    assert!(matches!(r, Err(StorageError::NotFound)));
}

#[test]
fn delete_batch_stops_at_first_missing_name() {
    let mut s = Storage::new();
    s.upload(Some(&src("a.txt", b"1"))).unwrap();
    s.upload(Some(&src("b.txt", b"22"))).unwrap();
    s.upload(Some(&src("c.txt", b"333"))).unwrap();
    let r = s.delete_files(&vec![
        "a.txt".to_string(),
        "missing.txt".to_string(),
        "b.txt".to_string(),
    ]);
    assert!(matches!(r, Err(StorageError::NotFound)));
    // The deletion before the failure stays; the names after it are untouched.
    let listed = s.get_files();
    assert_eq!(listed.len(), 2);
    assert_eq!(listed[0].filename, "b.txt");
    assert_eq!(listed[1].filename, "c.txt");
    let mut dest = empty_dir();
    assert!(matches!(s.download("a.txt", &mut dest), Err(StorageError::NotFound)));
    s.download("b.txt", &mut dest).unwrap();
    s.download("c.txt", &mut dest).unwrap();
}

#[test]
fn delete_all_then_list_empty() {
    let mut s = Storage::new();
    s.upload(Some(&src("a.txt", b"1"))).unwrap();
    s.upload(Some(&src("b.txt", b"2"))).unwrap();
    s.delete_files(&vec!["b.txt".to_string(), "a.txt".to_string()]).unwrap();
    assert_eq!(s.get_files().len(), 0);
}

#[test]
fn add_file_name_to_metadata_appends_record() {
    let mut s = Storage::new();
    let rec = s.add_file_name_to_metadata("direct.bin".to_string(), 77);
    assert_eq!(rec.filename, "direct.bin");
    assert_eq!(rec.size, 77);
    let listed = s.get_files();
    assert_eq!(listed.len(), 1);
    assert_eq!(listed[0].filename, "direct.bin");
    assert_eq!(listed[0].size, 77);
}

#[test]
fn error_messages() {
    assert_eq!(StorageError::InvalidInput.message(), "Invalid path");
    assert_eq!(StorageError::NotFound.message(), "Not found in storage");
}
