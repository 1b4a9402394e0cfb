//! Holds the library against a conventional whole-archive reader: archives
//! written by the zip crate are indexed and partially extracted here, and
//! the extracted bytes must equal what the conventional reader yields.

use std::io::{Cursor, Read, Write};

use zipdex::builder::build_index;
use zipdex::extract::extract_from_bytes;

fn sample_archive() -> Vec<u8> {
    let mut zw = zip::write::ZipWriter::new(Cursor::new(Vec::new()));
    let opts = zip::write::SimpleFileOptions::default()
        .compression_method(zip::CompressionMethod::Deflated);
    zw.add_directory("dir", opts).unwrap();
    zw.start_file("dir/file.txt", opts).unwrap();
    zw.write_all(b"hello world").unwrap();
    zw.start_file("data/r/r2.bin", opts).unwrap();
    let payload: Vec<u8> = (0..4096u32).map(|i| (i % 251) as u8).collect();
    zw.write_all(&payload).unwrap();
    zw.finish().unwrap().into_inner()
}

#[test]
fn extraction_matches_conventional_reader() {
    let bytes = sample_archive();
    let idx = build_index(&bytes).unwrap();
    assert!(idx.iter().any(|e| e.name == b"dir/file.txt".to_vec()));
    let mut za = zip::ZipArchive::new(Cursor::new(bytes.clone())).unwrap();
    let mut checked = 0;
    for e in idx.iter().filter(|e| !e.is_directory) {
        let name = String::from_utf8(e.name.clone()).unwrap();
        let ours = extract_from_bytes(&bytes, &idx, &e.name).unwrap();
        let mut zf = za.by_name(&name).unwrap();
        let mut theirs = Vec::new();
        zf.read_to_end(&mut theirs).unwrap();
        assert_eq!(ours, theirs);
        checked += 1;
    }
    assert_eq!(checked, 2);
}

#[test]
fn index_agrees_with_conventional_reader() {
    let bytes = sample_archive();
    let idx = build_index(&bytes).unwrap();
    let mut za = zip::ZipArchive::new(Cursor::new(bytes.clone())).unwrap();
    assert_eq!(idx.len(), za.len());
    for (i, e) in idx.iter().enumerate() {
        let zf = za.by_index(i).unwrap();
        assert_eq!(e.name, zf.name().as_bytes().to_vec());
        assert_eq!(e.uncompressed_size, zf.size());
        assert_eq!(e.compressed_size, zf.compressed_size());
        assert_eq!(e.is_directory, zf.is_dir());
        assert_eq!(Some(e.data_offset), zf.data_start());
    }
}
