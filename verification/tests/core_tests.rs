use std::io::Write;

use zipdex::Error;
use zipdex::builder::build_index;
use zipdex::extract::{extract_from_bytes, finish_remote, lookup, remote_range};
use zipdex::inflate::decompress;
use zipdex::store::{load_index, save_index};

fn le16(v: u16) -> Vec<u8> {
    vec![(v & 0xff) as u8, (v >> 8) as u8]
}

fn le32(v: u32) -> Vec<u8> {
    vec![
        (v & 0xff) as u8,
        ((v >> 8) & 0xff) as u8,
        ((v >> 16) & 0xff) as u8,
        ((v >> 24) & 0xff) as u8,
    ]
}

fn deflate(data: &[u8]) -> Vec<u8> {
    let mut enc = flate2::write::DeflateEncoder::new(Vec::new(), flate2::Compression::default());
    enc.write_all(data).unwrap();
    enc.finish().unwrap()
}

/// Builds a well-formed single-disk archive from `(name, payload,
/// uncompressed_size)` triples and returns its bytes together with each
/// member's payload offset.
fn make_archive(members: &[(&[u8], &[u8], u32)]) -> (Vec<u8>, Vec<u64>) {
    let mut out: Vec<u8> = Vec::new();
    let mut lhos: Vec<u32> = Vec::new();
    let mut doffs: Vec<u64> = Vec::new();
    for (name, payload, us) in members {
        lhos.push(out.len() as u32);
        out.extend_from_slice(&[0x50, 0x4b, 0x03, 0x04]);
        out.extend(le16(20)); // version needed
        out.extend(le16(0)); // flags
        out.extend(le16(8)); // compression method: deflate
        out.extend(le16(0)); // time
        out.extend(le16(0)); // date
        out.extend(le32(0)); // crc
        out.extend(le32(payload.len() as u32));
        out.extend(le32(*us));
        out.extend(le16(name.len() as u16));
        out.extend(le16(0)); // extra length
        out.extend_from_slice(name);
        doffs.push(out.len() as u64);
        out.extend_from_slice(payload);
    }
    let cd_start = out.len() as u32;
    for (i, (name, payload, us)) in members.iter().enumerate() {
        out.extend_from_slice(&[0x50, 0x4b, 0x01, 0x02]);
        out.extend(le16(20)); // version made by
        out.extend(le16(20)); // version needed
        out.extend(le16(0)); // flags
        out.extend(le16(8)); // method
        out.extend(le16(0)); // time
        out.extend(le16(0)); // date
        out.extend(le32(0)); // crc
        out.extend(le32(payload.len() as u32));
        out.extend(le32(*us));
        out.extend(le16(name.len() as u16));
        out.extend(le16(0)); // extra length
        out.extend(le16(0)); // comment length
        out.extend(le16(0)); // disk number
        out.extend(le16(0)); // internal attributes
        out.extend(le32(0)); // external attributes
        out.extend(le32(lhos[i]));
        out.extend_from_slice(name);
    }
    let cd_end = out.len() as u32;
    out.extend_from_slice(&[0x50, 0x4b, 0x05, 0x06]);
    out.extend(le16(0));
    out.extend(le16(0));
    out.extend(le16(members.len() as u16));
    out.extend(le16(members.len() as u16));
    out.extend(le32(cd_end - cd_start));
    out.extend(le32(cd_start));
    out.extend(le16(0));
    (out, doffs)
}

fn hello_archive() -> (Vec<u8>, Vec<u64>) {
    let c = deflate(b"hello world");
    make_archive(&[(b"dir/", &[], 0), (b"dir/file.txt", &c, 11)])
}

#[test]
fn scenario_build_index() {
    let (bytes, doffs) = hello_archive();
    let idx = build_index(&bytes).unwrap();
    assert_eq!(idx.len(), 2);
    assert_eq!(idx[0].name, b"dir/".to_vec());
    assert_eq!(idx[0].uncompressed_size, 0);
    assert_eq!(idx[0].compressed_size, 0);
    assert!(idx[0].is_directory);
    assert_eq!(idx[0].data_offset, doffs[0]);
    assert_eq!(idx[1].name, b"dir/file.txt".to_vec());
    assert_eq!(idx[1].uncompressed_size, 11);
    assert!(!idx[1].is_directory);
    assert_eq!(idx[1].data_offset, doffs[1]);
}

#[test]
fn scenario_extract_file() {
    let (bytes, _) = hello_archive();
    let idx = build_index(&bytes).unwrap();
    let out = extract_from_bytes(&bytes, &idx, b"dir/file.txt").unwrap();
    assert_eq!(out, b"hello world".to_vec());
    assert_eq!(out.len(), 11);
}

#[test]
fn scenario_missing_entry() {
    let (bytes, _) = hello_archive();
    let idx = build_index(&bytes).unwrap();
    let r = extract_from_bytes(&bytes, &idx, b"dir/nope.txt");
    assert_eq!(r, Err(Error::NotFound));
}

#[test]
fn roundtrip_save_load() {
    let (bytes, _) = hello_archive();
    let idx = build_index(&bytes).unwrap();
    let blob = save_index(&idx);
    let idx2 = load_index(&blob).unwrap();
    assert_eq!(idx.len(), idx2.len());
    for (a, b) in idx.iter().zip(idx2.iter()) {
        assert_eq!(a.name, b.name);
        assert_eq!(a.uncompressed_size, b.uncompressed_size);
        assert_eq!(a.compressed_size, b.compressed_size);
        assert_eq!(a.is_directory, b.is_directory);
        assert_eq!(a.data_offset, b.data_offset);
    }
}

#[test]
fn load_rejects_bad_magic() {
    let (bytes, _) = hello_archive();
    let idx = build_index(&bytes).unwrap();
    let mut blob = save_index(&idx);
    blob[0] = 0x00;
    assert_eq!(load_index(&blob), Err(Error::Decode));
}

#[test]
fn load_rejects_truncated() {
    let (bytes, _) = hello_archive();
    let idx = build_index(&bytes).unwrap();
    let blob = save_index(&idx);
    assert_eq!(load_index(&blob[..blob.len() - 1]), Err(Error::Decode));
    assert_eq!(load_index(&blob[..4]), Err(Error::Decode));
}

#[test]
fn load_rejects_trailing_bytes() {
    let (bytes, _) = hello_archive();
    let idx = build_index(&bytes).unwrap();
    let mut blob = save_index(&idx);
    blob.push(0);
    assert_eq!(load_index(&blob), Err(Error::Decode));
}

#[test]
fn load_rejects_bad_flag_byte() {
    let (bytes, _) = hello_archive();
    let idx = build_index(&bytes).unwrap();
    let mut blob = save_index(&idx);
    // first entry: count(8) after magic(4), then name_len(8), name "dir/"
    // (4), sizes (16), then the directory flag byte
    let flag_pos = 12 + 8 + 4 + 8 + 8;
    assert!(blob[flag_pos] == 1);
    blob[flag_pos] = 7;
    assert_eq!(load_index(&blob), Err(Error::Decode));
}

#[test]
fn build_rejects_no_directory_structure() {
    assert_eq!(build_index(b"this is not an archive"), Err(Error::Parse));
    assert_eq!(build_index(b""), Err(Error::Parse));
}

#[test]
fn build_drops_member_with_bad_local_header() {
    let (mut bytes, _) = hello_archive();
    // corrupt the first member's local-header signature
    bytes[0] = 0x51;
    let idx = build_index(&bytes).unwrap();
    assert_eq!(idx.len(), 1);
    assert_eq!(idx[0].name, b"dir/file.txt".to_vec());
}

#[test]
fn idempotent_build() {
    let (bytes, _) = hello_archive();
    let idx1 = build_index(&bytes).unwrap();
    let idx2 = build_index(&bytes).unwrap();
    assert_eq!(idx1.len(), idx2.len());
    for (a, b) in idx1.iter().zip(idx2.iter()) {
        assert_eq!(a.name, b.name);
        assert_eq!(a.uncompressed_size, b.uncompressed_size);
        assert_eq!(a.compressed_size, b.compressed_size);
        assert_eq!(a.is_directory, b.is_directory);
        assert_eq!(a.data_offset, b.data_offset);
    }
}

#[test]
fn offset_correctness_parse_back() {
    let (bytes, _) = hello_archive();
    let idx = build_index(&bytes).unwrap();
    for e in idx.iter().filter(|e| !e.is_directory) {
        // the local header lies 30 + name_len + extra_len bytes before the
        // payload; this archive writes no extra field
        let lh = (e.data_offset as usize) - 30 - e.name.len();
        assert_eq!(&bytes[lh..lh + 4], &[0x50, 0x4b, 0x03, 0x04]);
        let csize = u32::from_le_bytes(bytes[lh + 18..lh + 22].try_into().unwrap());
        let usize_ = u32::from_le_bytes(bytes[lh + 22..lh + 26].try_into().unwrap());
        let nl = u16::from_le_bytes(bytes[lh + 26..lh + 28].try_into().unwrap()) as usize;
        assert_eq!(csize as u64, e.compressed_size);
        assert_eq!(usize_ as u64, e.uncompressed_size);
        assert_eq!(nl, e.name.len());
        assert_eq!(&bytes[lh + 30..lh + 30 + nl], &e.name[..]);
    }
}

#[test]
fn remote_range_is_inclusive_span() {
    let (bytes, _) = hello_archive();
    let idx = build_index(&bytes).unwrap();
    let e = lookup(&idx, b"dir/file.txt").unwrap();
    let (first, last) = remote_range(&e);
    assert_eq!(first, e.data_offset);
    assert_eq!(last, e.data_offset + e.compressed_size);
}

#[test]
fn local_remote_equivalence_on_equal_bytes() {
    let (bytes, _) = hello_archive();
    let idx = build_index(&bytes).unwrap();
    let e = lookup(&idx, b"dir/file.txt").unwrap();
    let (first, last) = remote_range(&e);
    // what a range request against an object holding the same bytes returns:
    // positions first..=last, truncated at the object's end
    let end = std::cmp::min(last as usize + 1, bytes.len());
    let fetched = &bytes[first as usize..end];
    let remote = finish_remote(fetched, &e).unwrap();
    let local = extract_from_bytes(&bytes, &idx, b"dir/file.txt").unwrap();
    assert_eq!(remote, local);
}

#[test]
fn finish_remote_bounds_to_compressed_size() {
    let (bytes, _) = hello_archive();
    let idx = build_index(&bytes).unwrap();
    let e = lookup(&idx, b"dir/file.txt").unwrap();
    let start = e.data_offset as usize;
    let stop = start + e.compressed_size as usize;
    // hand it the payload plus trailing archive bytes: they must be cut off
    let mut fetched = bytes[start..stop].to_vec();
    fetched.extend_from_slice(&[0xde, 0xad, 0xbe, 0xef]);
    let out = finish_remote(&fetched, &e).unwrap();
    assert_eq!(out, b"hello world".to_vec());
}

#[test]
fn decompress_inflates() {
    let c = deflate(b"some test data that deflate shrinks shrinks shrinks");
    let out = decompress(&c).unwrap();
    assert_eq!(out, b"some test data that deflate shrinks shrinks shrinks".to_vec());
    assert_ne!(out, c);
}

#[test]
fn decompress_rejects_garbage() {
    assert_eq!(decompress(&[0xff, 0xff, 0xff, 0xff]), Err(Error::Decompression));
}

#[test]
fn extract_rejects_invalid_stream() {
    let (bytes, _) = make_archive(&[(b"bad.bin", &[0xff, 0xff, 0xff, 0xff], 9)]);
    let idx = build_index(&bytes).unwrap();
    assert_eq!(extract_from_bytes(&bytes, &idx, b"bad.bin"), Err(Error::Decompression));
}

#[test]
fn lookup_first_match_wins() {
    let one = deflate(b"one");
    let two = deflate(b"two");
    let (bytes, _) = make_archive(&[(b"a.txt", &one, 3), (b"a.txt", &two, 3)]);
    let idx = build_index(&bytes).unwrap();
    assert_eq!(idx.len(), 2);
    let out = extract_from_bytes(&bytes, &idx, b"a.txt").unwrap();
    assert_eq!(out, b"one".to_vec());
}

#[test]
fn build_with_archive_comment() {
    let (mut bytes, _) = hello_archive();
    // give the end-of-central-directory record a 5-byte comment
    let n = bytes.len();
    bytes[n - 2] = 5;
    bytes.extend_from_slice(b"notes");
    let idx = build_index(&bytes).unwrap();
    assert_eq!(idx.len(), 2);
    let out = extract_from_bytes(&bytes, &idx, b"dir/file.txt").unwrap();
    assert_eq!(out, b"hello world".to_vec());
}

#[test]
fn roundtrip_empty_index() {
    let idx: Vec<zipdex::entry::Entry> = Vec::new();
    let blob = save_index(&idx);
    let idx2 = load_index(&blob).unwrap();
    assert_eq!(idx2.len(), 0);
}
