//! Directory entries as the kernel packs them.

use diskscour::bulkstat::{
    parse_entry, rd_u32, rd_u64, take_batch, Step, ATTR_CMNEXT_PRIVATESIZE, ATTR_CMN_FILEID,
    ATTR_CMN_MODTIME, ATTR_CMN_NAME, ATTR_CMN_OBJTYPE, ATTR_FILE_ALLOCSIZE, ATTR_FILE_LINKCOUNT,
};

/// One packed entry: a regular file, or a directory with an mtime.
fn packed(name: &[u8], file: bool) -> Vec<u8> {
    let common = ATTR_CMN_NAME | ATTR_CMN_OBJTYPE | ATTR_CMN_MODTIME | ATTR_CMN_FILEID;
    let (files, fork) = if file {
        (ATTR_FILE_LINKCOUNT | ATTR_FILE_ALLOCSIZE, ATTR_CMNEXT_PRIVATESIZE)
    } else {
        (0, 0)
    };
    let mut b: Vec<u8> = vec![0; 4];
    for w in [common, 0, 0, files, fork] {
        b.extend_from_slice(&w.to_le_bytes());
    }
    let fixed = 8 + 4 + 16 + 8 + if file { 4 + 8 + 8 } else { 0 };
    // The name stands behind the attributes; its offset counts from its reference.
    b.extend_from_slice(&(fixed as i32).to_le_bytes());
    b.extend_from_slice(&(name.len() as u32 + 1).to_le_bytes());
    b.extend_from_slice(&(if file { 1u32 } else { 2u32 }).to_le_bytes());
    b.extend_from_slice(&3i64.to_le_bytes());
    b.extend_from_slice(&7i64.to_le_bytes());
    b.extend_from_slice(&55u64.to_le_bytes());
    if file {
        b.extend_from_slice(&1u32.to_le_bytes());
        b.extend_from_slice(&40960u64.to_le_bytes());
        b.extend_from_slice(&4096u64.to_le_bytes());
    }
    b.extend_from_slice(name);
    b.push(0);
    let n = b.len() as u32;
    b[..4].copy_from_slice(&n.to_le_bytes());
    b
}

#[test]
fn an_entry_is_unpacked() {
    let b = packed(b"a.bin", true);
    let (e, n) = parse_entry(&b).unwrap();
    assert_eq!(n, b.len());
    let e = e.unwrap();
    assert_eq!(e.name, "a.bin");
    assert!(e.is_file);
    assert_eq!((e.allocated, e.private, e.fileid, e.nlink), (40960, 4096, 55, 1));
    let (d, _) = parse_entry(&packed(b"sub", false)).unwrap();
    let d = d.unwrap();
    assert!(!d.is_file, "a directory must not be counted as a file");
    assert_eq!(d.allocated, 0, "directories contribute no size here");
    assert_eq!(d.mtime_ns, 3_000_000_007);
}

#[test]
fn names_that_are_not_utf8_are_mended() {
    let (e, _) = parse_entry(&packed(b"a\xffb", true)).unwrap();
    assert_eq!(e.unwrap().name, "a\u{fffd}b");
}

#[test]
fn short_entries_are_refused() {
    let b = packed(b"a.bin", true);
    for cut in 0..20 {
        assert!(parse_entry(&b[..cut]).is_none());
    }
}

#[test]
fn batches_are_taken_in() {
    let mut buf = packed(b"x", true);
    buf.extend_from_slice(&packed(b"..", false));
    buf.extend_from_slice(&packed(b"y", false));
    let mut out = Vec::new();
    assert!(take_batch(&mut out, 3, &buf) == Step::More);
    let names: Vec<&str> = out.iter().map(|e| e.name.as_str()).collect();
    assert_eq!(names, vec!["x", "y"]);
    assert!(take_batch(&mut out, 0, &buf) == Step::Done);
    assert!(take_batch(&mut out, -1, &buf) == Step::Failed);
    assert!(take_batch(&mut out, 4, &buf) == Step::Failed);
    // What was read before the break is kept behind what was there.
    let names: Vec<&str> = out.iter().map(|e| e.name.as_str()).collect();
    assert_eq!(names, vec!["x", "y", "x", "y"]);
}

#[test]
fn words_are_little_endian() {
    let b = [1u8, 2, 3, 4, 5, 6, 7, 8, 9];
    assert_eq!(rd_u32(&b, 1), Some(0x0504_0302));
    assert_eq!(rd_u64(&b, 1), Some(0x0908_0706_0504_0302));
    assert_eq!(rd_u64(&b, 2), None);
    assert_eq!(rd_u32(&b, usize::MAX), None);
}
