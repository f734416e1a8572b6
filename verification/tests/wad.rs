use dr2::wad::{Header, Wad};
use dr2::Error;

/// Builds the bytes of a minimal archive: one file named `file` holding
/// `payload` at offset 0, and one root directory listing it.
fn minimal_wad(payload: &[u8]) -> Vec<u8> {
    let mut data = Vec::new();
    data.extend_from_slice(b"AGAR");
    data.extend_from_slice(&1u32.to_le_bytes());
    data.extend_from_slice(&2u32.to_le_bytes());
    data.extend_from_slice(&0u32.to_le_bytes());

    data.extend_from_slice(&1u32.to_le_bytes()); // file count
    data.extend_from_slice(&4u32.to_le_bytes()); // file path length
    data.extend_from_slice(b"file");
    data.extend_from_slice(&(payload.len() as u64).to_le_bytes());
    data.extend_from_slice(&0u64.to_le_bytes()); // file offset

    data.extend_from_slice(&1u32.to_le_bytes()); // dir count (root)
    data.extend_from_slice(&0u32.to_le_bytes()); // dir path length (empty)
    data.extend_from_slice(&1u32.to_le_bytes()); // subfile count
    data.extend_from_slice(&4u32.to_le_bytes()); // subfile name length
    data.extend_from_slice(b"file");
    data.push(0); // subfile type

    data.extend_from_slice(payload);
    data
}

#[test]
fn minimal_wad_header() {
    let mut data = Vec::new();
    data.extend_from_slice(b"AGAR"); // magic numbers
    data.extend_from_slice(&1u32.to_le_bytes()); // version
    data.extend_from_slice(&2u32.to_le_bytes());
    data.extend_from_slice(&0u32.to_le_bytes()); // unused value

    data.extend_from_slice(&1u32.to_le_bytes()); // file count
    data.extend_from_slice(&4u32.to_le_bytes()); // file path length
    data.extend_from_slice(b"file"); // file path
    data.extend_from_slice(&16u64.to_le_bytes()); // file size
    data.extend_from_slice(&0u64.to_le_bytes()); // file offset

    data.extend_from_slice(&1u32.to_le_bytes()); // dir count (root)
    data.extend_from_slice(&0u32.to_le_bytes()); // dir path length (empty)
    data.extend_from_slice(&1u32.to_le_bytes()); // subfile count
    data.extend_from_slice(&4u32.to_le_bytes()); // subfile name length
    data.extend_from_slice(b"file"); // subfile name
    data.push(0); // subfile type

    // check if the values match
    let header = Header::read_from(&data).unwrap();
    assert_eq!(header.version, [1, 2]);

    assert_eq!(header.files.len(), 1);
    assert_eq!(header.files[0].path, "file");
    assert_eq!(header.files[0].size, 16);
    assert_eq!(header.files[0].offset, 0);

    assert_eq!(header.dirs.len(), 1);
    assert_eq!(header.dirs[0].path, "");
    assert_eq!(header.dirs[0].subfiles.len(), 1);
    assert_eq!(header.dirs[0].subfiles[0].name, "file");
    assert_eq!(header.dirs[0].subfiles[0].is_directory, false);
}

#[test]
fn read_after_write() {
    let data = minimal_wad(b"some bytes twice");
    let wad = Wad::open(data).unwrap();
    assert_eq!(wad.read_file("file").unwrap(), b"some bytes twice".to_vec());
}

#[test]
fn read_after_inject_in_place() {
    let data = minimal_wad(b"0123456789abcdef");
    let before = minimal_wad(b"0123456789abcdef").len();
    let mut wad = Wad::open(data).unwrap();
    wad.inject_file("file", b"xy").unwrap();
    assert_eq!(wad.read_file("file").unwrap(), b"xy".to_vec());
    assert_eq!(wad.header().files[0].offset, 0);
    assert_eq!(wad.header().files[0].size, 2);
    // the archive did not grow, and the slack keeps the old bytes
    let header = wad.header();
    assert_eq!(header.size, (before - 16) as u64);
}

#[test]
fn read_after_inject_relocates() {
    let data = minimal_wad(b"0123456789abcdef");
    let old_total = data.len() as u64;
    let mut wad = Wad::open(data).unwrap();
    let header_size = wad.header().size;
    let payload = b"this payload is far too long for the slot";
    wad.inject_file("file", payload).unwrap();
    assert_eq!(wad.read_file("file").unwrap(), payload.to_vec());
    assert_eq!(wad.header().files[0].offset, old_total - header_size);
    assert_eq!(wad.header().files[0].size, payload.len() as u64);
}

#[test]
fn unknown_path_changes_nothing() {
    let data = minimal_wad(b"0123456789abcdef");
    let mut wad = Wad::open(data).unwrap();
    assert!(matches!(wad.read_file("nope"), Err(Error::UnknownPath)));
    assert!(matches!(wad.inject_file("nope", b"zz"), Err(Error::UnknownPath)));
    // the archive still reads back as before
    assert_eq!(wad.read_file("file").unwrap(), b"0123456789abcdef".to_vec());
}

#[test]
fn list_dir_lists_subfiles() {
    let data = minimal_wad(b"0123456789abcdef");
    let wad = Wad::open(data).unwrap();
    let names = wad.list_dir("", true).unwrap();
    assert_eq!(names, vec!["/file".to_string()]);
    assert!(matches!(wad.list_dir("nope", false), Err(Error::UnknownDir)));
}

#[test]
fn open_rejects_bad_magic() {
    let mut data = minimal_wad(b"0123456789abcdef");
    data[0] = b'X';
    assert!(matches!(Wad::open(data), Err(Error::MalformedMagic)));
}

#[test]
fn open_rejects_truncated_header() {
    let data = minimal_wad(b"0123456789abcdef");
    let cut = data[..30].to_vec();
    assert!(matches!(Wad::open(cut), Err(Error::UnexpectedEnd)));
}

#[test]
fn open_rejects_bad_utf8_path() {
    let mut data = minimal_wad(b"0123456789abcdef");
    data[24] = 0xff; // first byte of the file path
    assert!(matches!(Wad::open(data), Err(Error::InvalidUtf8)));
}
