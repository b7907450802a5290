use tar::{Archive, Error, MemReader, SeekStyle};

fn octal_field(value: u64, width: usize) -> Vec<u8> {
    let mut f = format!("{:0w$o}", value, w = width - 1).into_bytes();
    f.push(0);
    f
}

fn header(name: &str, size: u64) -> Vec<u8> {
    let mut h = vec![0u8; 512];
    h[..name.len()].copy_from_slice(name.as_bytes());
    h[100..108].copy_from_slice(&octal_field(0o644, 8));
    h[108..116].copy_from_slice(&octal_field(0, 8));
    h[116..124].copy_from_slice(&octal_field(0, 8));
    h[124..136].copy_from_slice(&octal_field(size, 12));
    h[136..148].copy_from_slice(&octal_field(0, 12));
    h[156] = b'0';
    for b in h[148..156].iter_mut() {
        *b = b' ';
    }
    let sum: u64 = h.iter().map(|b| *b as u64).sum();
    let ck = format!("{:06o}", sum);
    h[148..154].copy_from_slice(ck.as_bytes());
    h[154] = 0;
    h[155] = b' ';
    h
}

fn entry(name: &str, data: &[u8]) -> Vec<u8> {
    let mut out = header(name, data.len() as u64);
    out.extend_from_slice(data);
    while out.len() % 512 != 0 {
        out.push(0);
    }
    out
}

fn archive_of(entries: &[(&str, &[u8])]) -> Vec<u8> {
    let mut out = Vec::new();
    for (name, data) in entries {
        out.extend(entry(name, data));
    }
    out.extend(vec![0u8; 1024]);
    out
}

fn reading_files_tar() -> Vec<u8> {
    archive_of(&[
        ("a", "a\na\na\na\na\na\na\na\na\na\na\n".as_bytes()),
        ("b", "b\nb\nb\nb\nb\nb\nb\nb\nb\nb\nb\n".as_bytes()),
    ])
}

fn text(v: Vec<u8>) -> String {
    String::from_utf8(v).unwrap()
}

#[test]
fn simple() {
    let bytes = archive_of(&[
        ("hello.txt", "hello world\n".as_bytes()),
        ("empty", "".as_bytes()),
        ("dir/nested.bin", &[7u8; 1500]),
    ]);
    let mut ar = Archive::new(MemReader::new(bytes));
    let mut files = ar.files().unwrap();
    while let Some(file) = files.next(&mut ar) {
        file.unwrap();
    }
}

#[test]
fn reading_files() {
    let mut ar = Archive::new(MemReader::new(reading_files_tar()));
    let mut files = ar.files().unwrap();
    let mut a = files.next(&mut ar).unwrap().unwrap();
    let mut b = files.next(&mut ar).unwrap().unwrap();
    assert!(files.next(&mut ar).is_none());

    assert_eq!(a.filename(), Some("a"));
    assert_eq!(b.filename(), Some("b"));
    assert_eq!(text(a.read_to_end(&mut ar).unwrap()), "a\na\na\na\na\na\na\na\na\na\na\n");
    assert_eq!(text(b.read_to_end(&mut ar).unwrap()), "b\nb\nb\nb\nb\nb\nb\nb\nb\nb\nb\n");
    a.seek(0, SeekStyle::SeekSet).unwrap();
    assert_eq!(text(a.read_to_end(&mut ar).unwrap()), "a\na\na\na\na\na\na\na\na\na\na\n");
}

#[test]
fn entries_in_order_with_names_and_sizes() {
    let mut ar = Archive::new(MemReader::new(archive_of(&[
        ("first", "12345".as_bytes()),
        ("second", &[1u8; 600]),
        ("third", "".as_bytes()),
    ])));
    let list = ar.entries().unwrap();
    assert_eq!(list.len(), 3);
    assert_eq!(list[0].filename_bytes(), b"first");
    assert_eq!(list[0].size(), 5);
    assert_eq!(list[1].filename(), Some("second"));
    assert_eq!(list[1].size(), 600);
    assert_eq!(list[2].filename(), Some("third"));
    assert_eq!(list[2].size(), 0);
}

#[test]
fn size_matches_bytes_read() {
    let mut ar = Archive::new(MemReader::new(archive_of(&[("x", &[9u8; 1025])])));
    let mut list = ar.entries().unwrap();
    let data = list[0].read_to_end(&mut ar).unwrap();
    assert_eq!(data.len() as u64, list[0].size());
    assert_eq!(data.len(), 1025);
    assert!(data.iter().all(|b| *b == 9));
}

#[test]
fn read_at_end_reports_end_of_file() {
    let mut ar = Archive::new(MemReader::new(archive_of(&[("x", "abc".as_bytes())])));
    let mut list = ar.entries().unwrap();
    let f = &mut list[0];
    assert_eq!(f.read(&mut ar, 2).unwrap(), b"ab".to_vec());
    assert_eq!(f.tell(), 2);
    assert_eq!(f.read(&mut ar, 10).unwrap(), b"c".to_vec());
    assert_eq!(f.read(&mut ar, 10), Err(Error::EndOfFile));
}

#[test]
fn rewind_rereads_same_bytes() {
    let mut ar = Archive::new(MemReader::new(archive_of(&[("r", "rewind me".as_bytes())])));
    let mut list = ar.entries().unwrap();
    let first = list[0].read_to_end(&mut ar).unwrap();
    list[0].seek(0, SeekStyle::SeekSet).unwrap();
    let second = list[0].read_to_end(&mut ar).unwrap();
    assert_eq!(first, second);
    assert_eq!(first, b"rewind me".to_vec());
}

#[test]
fn corrupted_checksum_stops_iteration() {
    let mut bytes = archive_of(&[
        ("a", "aaa".as_bytes()),
        ("b", "bbb".as_bytes()),
        ("c", "ccc".as_bytes()),
    ]);
    // second header starts at 1024; change a digit of its checksum
    let d = bytes[1024 + 150];
    bytes[1024 + 150] = if d == b'1' { b'2' } else { b'1' };
    let mut ar = Archive::new(MemReader::new(bytes));
    let mut files = ar.files().unwrap();
    let a = files.next(&mut ar).unwrap().unwrap();
    assert_eq!(a.filename(), Some("a"));
    assert_eq!(files.next(&mut ar).unwrap().err(), Some(Error::BadArchive));
    assert!(files.next(&mut ar).is_none());
    assert!(files.next(&mut ar).is_none());
}

#[test]
fn corrupted_checksum_fails_listing() {
    let mut bytes = archive_of(&[("a", "aaa".as_bytes())]);
    bytes[148] = b'x';
    let mut ar = Archive::new(MemReader::new(bytes));
    assert_eq!(ar.entries().err(), Some(Error::BadArchive));
}

#[test]
fn only_end_marker_yields_nothing() {
    let mut ar = Archive::new(MemReader::new(vec![0u8; 1024]));
    let mut files = ar.files().unwrap();
    assert!(files.next(&mut ar).is_none());
    assert!(files.next(&mut ar).is_none());
    let mut ar = Archive::new(MemReader::new(vec![0u8; 1024]));
    assert_eq!(ar.entries().unwrap().len(), 0);
}

#[test]
fn end_marker_after_entries_ends_cleanly() {
    let mut ar = Archive::new(MemReader::new(archive_of(&[("a", "1".as_bytes()), ("b", "2".as_bytes())])));
    let mut files = ar.files().unwrap();
    assert!(files.next(&mut ar).unwrap().is_ok());
    assert!(files.next(&mut ar).unwrap().is_ok());
    assert!(files.next(&mut ar).is_none());
}

#[test]
fn truncated_archive_is_malformed() {
    let mut bytes = archive_of(&[("a", "1".as_bytes())]);
    bytes.truncate(1024 + 100);
    let mut ar = Archive::new(MemReader::new(bytes));
    let mut files = ar.files().unwrap();
    assert!(files.next(&mut ar).unwrap().is_ok());
    assert_eq!(files.next(&mut ar).unwrap().err(), Some(Error::BadArchive));
    let mut ar = Archive::new(MemReader::new(vec![]));
    let mut files = ar.files().unwrap();
    assert_eq!(files.next(&mut ar).unwrap().err(), Some(Error::BadArchive));
}

#[test]
fn bad_size_field_is_malformed() {
    let mut h = header("a", 0);
    h[124] = b'9';
    let sum: u64 = h[..148].iter().chain(h[156..].iter()).map(|b| *b as u64).sum::<u64>() + 256;
    let ck = format!("{:06o}", sum);
    h[148..154].copy_from_slice(ck.as_bytes());
    let mut bytes = h;
    bytes.extend(vec![0u8; 1024]);
    let mut ar = Archive::new(MemReader::new(bytes));
    assert_eq!(ar.entries().err(), Some(Error::BadArchive));
}

#[test]
fn seek_out_of_range_keeps_position() {
    let mut ar = Archive::new(MemReader::new(archive_of(&[("s", "0123456789".as_bytes())])));
    let mut list = ar.entries().unwrap();
    let f = &mut list[0];
    f.seek(4, SeekStyle::SeekSet).unwrap();
    assert_eq!(f.seek(-1, SeekStyle::SeekSet), Err(Error::OutOfRange));
    assert_eq!(f.tell(), 4);
    assert_eq!(f.seek(11, SeekStyle::SeekSet), Err(Error::OutOfRange));
    assert_eq!(f.tell(), 4);
    assert_eq!(f.seek(1, SeekStyle::SeekEnd), Err(Error::OutOfRange));
    assert_eq!(f.seek(-5, SeekStyle::SeekCur), Err(Error::OutOfRange));
    assert_eq!(f.tell(), 4);
    f.seek(-3, SeekStyle::SeekEnd).unwrap();
    assert_eq!(f.tell(), 7);
    f.seek(2, SeekStyle::SeekCur).unwrap();
    assert_eq!(f.tell(), 9);
    assert_eq!(f.read(&mut ar, 5).unwrap(), b"9".to_vec());
    f.seek(10, SeekStyle::SeekSet).unwrap();
    assert_eq!(f.read(&mut ar, 5), Err(Error::EndOfFile));
}

#[test]
fn single_zero_block_is_skipped() {
    let mut bytes = vec![0u8; 512];
    bytes.extend(archive_of(&[("z", "zz".as_bytes())]));
    let mut ar = Archive::new(MemReader::new(bytes));
    let list = ar.entries().unwrap();
    assert_eq!(list.len(), 1);
    assert_eq!(list[0].filename(), Some("z"));
}

#[test]
fn checksum_field_with_spaces_and_plus() {
    let mut h = header("p", 3);
    let sum: u64 = h[..148].iter().chain(h[156..].iter()).map(|b| *b as u64).sum::<u64>() + 256;
    let ck = format!(" +{:o}", sum);
    for b in h[148..156].iter_mut() {
        *b = b' ';
    }
    h[148..148 + ck.len()].copy_from_slice(ck.as_bytes());
    let mut bytes = h;
    bytes.extend(b"xyz");
    bytes.extend(vec![0u8; 509 + 1024]);
    let mut ar = Archive::new(MemReader::new(bytes));
    let mut list = ar.entries().unwrap();
    assert_eq!(list[0].size(), 3);
    assert_eq!(list[0].read_to_end(&mut ar).unwrap(), b"xyz".to_vec());
}

#[test]
fn non_utf8_name_has_bytes_only() {
    let mut h = header("n", 0);
    h[0] = 0xff;
    let sum: u64 = h[..148].iter().chain(h[156..].iter()).map(|b| *b as u64).sum::<u64>() + 256;
    let ck = format!("{:06o}", sum);
    h[148..154].copy_from_slice(ck.as_bytes());
    let mut bytes = h;
    bytes.extend(vec![0u8; 1024]);
    let mut ar = Archive::new(MemReader::new(bytes));
    let list = ar.entries().unwrap();
    assert_eq!(list[0].filename(), None);
    assert_eq!(list[0].filename_bytes(), &[0xffu8][..]);
}

fn header_with_checksum_field(name: &str, size: u64, field: &dyn Fn(u64) -> Vec<u8>) -> Vec<u8> {
    let mut h = header(name, size);
    let sum: u64 = h[..148].iter().chain(h[156..].iter()).map(|b| *b as u64).sum::<u64>() + 256;
    let f = field(sum);
    assert!(f.len() <= 8);
    for b in h[148..156].iter_mut() {
        *b = 0;
    }
    h[148..148 + f.len()].copy_from_slice(&f);
    h
}

fn single_entry_archive(h: Vec<u8>) -> Vec<u8> {
    let mut bytes = h;
    bytes.extend(vec![0u8; 1024]);
    bytes
}

#[test]
fn checksum_field_with_unicode_whitespace() {
    // U+00A0 before the digits
    let h = header_with_checksum_field("u", 0, &|sum| {
        let mut f = vec![0xC2, 0xA0];
        f.extend(format!("{:o}", sum).into_bytes());
        f
    });
    let mut ar = Archive::new(MemReader::new(single_entry_archive(h)));
    assert_eq!(ar.entries().unwrap().len(), 1);
    // U+3000 after the digits
    let h = header_with_checksum_field("v", 0, &|sum| {
        let mut f = format!("{:o}", sum).into_bytes();
        f.extend([0xE3, 0x80, 0x80]);
        f
    });
    let mut ar = Archive::new(MemReader::new(single_entry_archive(h)));
    assert_eq!(ar.entries().unwrap()[0].filename(), Some("v"));
}

#[test]
fn checksum_field_with_other_bytes_is_malformed() {
    // a lone continuation byte is neither whitespace nor a digit
    let h = header_with_checksum_field("w", 0, &|sum| {
        let mut f = vec![0xA0];
        f.extend(format!("{:o}", sum).into_bytes());
        f
    });
    let mut ar = Archive::new(MemReader::new(single_entry_archive(h)));
    assert_eq!(ar.entries().err(), Some(Error::BadArchive));
}
