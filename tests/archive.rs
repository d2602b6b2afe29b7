use farc::{Farc, FarcError};

fn build(pairs: &[(&str, &[u8])]) -> Farc {
    let mut farc = Farc::new();
    for (name, data) in pairs {
        farc.insert(name.as_bytes().to_vec(), data.to_vec());
    }
    farc
}

fn contents(farc: &Farc) -> Vec<(Vec<u8>, Vec<u8>)> {
    farc.entries()
        .iter()
        .map(|e| (e.name.clone(), e.data.clone()))
        .collect()
}

fn example_file() -> Vec<u8> {
    build(&[("b.bin", &[0xFF]), ("a.bin", &[0x01, 0x02])])
        .write_parser(false)
        .unwrap()
}

#[test]
fn example_scenario_bytes() {
    let file = example_file();
    let mut expected: Vec<u8> = vec![0x46, 0x41, 0x72, 0x63, 0, 0, 0, 32, 0, 0, 0, 0];
    expected.extend_from_slice(b"a.bin\0");
    expected.extend_from_slice(&[0, 0, 0, 40, 0, 0, 0, 2]);
    expected.extend_from_slice(b"b.bin\0");
    expected.extend_from_slice(&[0, 0, 0, 42, 0, 0, 0, 1]);
    expected.extend_from_slice(&[0x01, 0x02, 0xFF]);
    assert_eq!(file, expected);
}

#[test]
fn example_scenario_reads_back() {
    let read = Farc::from_parser(&example_file()).unwrap();
    assert_eq!(
        contents(&read),
        vec![
            (b"a.bin".to_vec(), vec![0x01, 0x02]),
            (b"b.bin".to_vec(), vec![0xFF]),
        ]
    );
}

#[test]
fn round_trip_plain() {
    let big: Vec<u8> = (0..3000u32).map(|i| (i * 7 % 251) as u8).collect();
    let farc = build(&[("zeta", &big), ("alpha", &[]), ("mid/dle.txt", b"hello"), ("", b"x")]);
    let file = farc.write_parser(false).unwrap();
    let read = Farc::from_parser(&file).unwrap();
    assert_eq!(contents(&read), contents(&farc));
}

#[test]
fn round_trip_compressed() {
    let zeros = vec![0u8; 5000];
    let text = "abc".repeat(70);
    let farc = build(&[("zeros", &zeros), ("one", &[7]), ("text", text.as_bytes())]);
    let file = farc.write_parser(true).unwrap();
    assert_eq!(&file[0..4], b"FArC");
    let read = Farc::from_parser(&file).unwrap();
    assert_eq!(contents(&read), contents(&farc));
}

#[test]
fn compressed_payload_is_gzip() {
    let zeros = vec![0u8; 5000];
    let farc = build(&[("zeros", &zeros)]);
    let file = farc.write_parser(true).unwrap();
    // header: 12 bytes, then "zeros\0" and three fields
    let offset = u32::from_be_bytes([file[18], file[19], file[20], file[21]]) as usize;
    let stored = u32::from_be_bytes([file[22], file[23], file[24], file[25]]) as usize;
    let raw = u32::from_be_bytes([file[26], file[27], file[28], file[29]]) as usize;
    assert_eq!(offset, 30);
    assert_eq!(raw, 5000);
    assert!(stored < raw);
    assert_eq!(&file[offset..offset + 2], &[0x1f, 0x8b]);
    assert_eq!(file.len(), offset + stored);
}

#[test]
fn writes_are_deterministic() {
    let a = build(&[("x", b"1"), ("y", b"22"), ("w", b"333")]);
    let b = build(&[("w", b"333"), ("y", b"22"), ("x", b"1")]);
    assert_eq!(a.write_parser(false).unwrap(), b.write_parser(false).unwrap());
    assert_eq!(a.write_parser(true).unwrap(), b.write_parser(true).unwrap());
    assert_eq!(a.write_parser(true).unwrap(), a.write_parser(true).unwrap());
}

#[test]
fn table_is_in_name_order() {
    let farc = build(&[("b", b"B"), ("ab", b"AB"), ("a", b"A"), ("B", b"b")]);
    let file = farc.write_parser(false).unwrap();
    let mut expected: Vec<u8> = vec![0x46, 0x41, 0x72, 0x63, 0, 0, 0, 4 + 10 + 10 + 11 + 10, 0, 0, 0, 0];
    let start: u32 = 8 + 45;
    expected.extend_from_slice(b"B\0");
    expected.extend_from_slice(&start.to_be_bytes());
    expected.extend_from_slice(&1u32.to_be_bytes());
    expected.extend_from_slice(b"a\0");
    expected.extend_from_slice(&(start + 1).to_be_bytes());
    expected.extend_from_slice(&1u32.to_be_bytes());
    expected.extend_from_slice(b"ab\0");
    expected.extend_from_slice(&(start + 2).to_be_bytes());
    expected.extend_from_slice(&2u32.to_be_bytes());
    expected.extend_from_slice(b"b\0");
    expected.extend_from_slice(&(start + 4).to_be_bytes());
    expected.extend_from_slice(&1u32.to_be_bytes());
    expected.extend_from_slice(b"bAABB");
    assert_eq!(file, expected);
}

#[test]
fn empty_archive() {
    let file = Farc::new().write_parser(false).unwrap();
    assert_eq!(file, vec![0x46, 0x41, 0x72, 0x63, 0, 0, 0, 4, 0, 0, 0, 0]);
    assert_eq!(Farc::from_parser(&file).unwrap().len(), 0);
}

#[test]
fn unknown_marker_is_unsupported() {
    let mut file = example_file();
    // the upper-case variant
    file[2] = b'R';
    file[3] = b'C';
    assert_eq!(Farc::from_parser(&file).err(), Some(FarcError::Unsupported));
    let other = b"abcd\0\0\0\x04\0\0\0\0".to_vec();
    assert_eq!(Farc::from_parser(&other).err(), Some(FarcError::Unsupported));
}

#[test]
fn short_file_is_malformed() {
    assert_eq!(Farc::from_parser(b"FA").err(), Some(FarcError::Malformed));
    assert_eq!(Farc::from_parser(b"FArc\0\0").err(), Some(FarcError::Malformed));
}

#[test]
fn uneven_header_length_is_malformed() {
    let mut file = example_file();
    file[7] = 30;
    assert_eq!(Farc::from_parser(&file).err(), Some(FarcError::Malformed));
    file[7] = 3;
    assert_eq!(Farc::from_parser(&file).err(), Some(FarcError::Malformed));
}

#[test]
fn span_past_end_is_malformed() {
    let mut file = example_file();
    // size of "b.bin" raised from 1 to 2
    file[12 + 14 + 6 + 7] = 2;
    assert_eq!(Farc::from_parser(&file).err(), Some(FarcError::Malformed));
}

#[test]
fn name_without_terminator_is_malformed() {
    let file = b"FArc\0\0\0\x08\0\0\0\0abcd".to_vec();
    assert_eq!(Farc::from_parser(&file).err(), Some(FarcError::Malformed));
}

#[test]
fn wrong_inflated_size_fails() {
    let zeros = vec![0u8; 5000];
    let mut file = build(&[("zeros", &zeros)]).write_parser(true).unwrap();
    // declared uncompressed size: 5000 -> 4999
    file[29] = file[29].wrapping_sub(1);
    assert_eq!(Farc::from_parser(&file).err(), Some(FarcError::Decompress));
}

#[test]
fn corrupt_gzip_fails() {
    let zeros = vec![0u8; 5000];
    let mut file = build(&[("zeros", &zeros)]).write_parser(true).unwrap();
    file[30] = 0;
    assert_eq!(Farc::from_parser(&file).err(), Some(FarcError::Decompress));
}

#[test]
fn equal_sizes_read_as_stored() {
    let mut file: Vec<u8> = b"FArC".to_vec();
    file.extend_from_slice(&(4u32 + 2 + 12).to_be_bytes());
    file.extend_from_slice(&[0, 0, 0, 0]);
    file.extend_from_slice(b"r\0");
    file.extend_from_slice(&26u32.to_be_bytes());
    file.extend_from_slice(&3u32.to_be_bytes());
    file.extend_from_slice(&3u32.to_be_bytes());
    file.extend_from_slice(&[9, 8, 7]);
    let read = Farc::from_parser(&file).unwrap();
    assert_eq!(contents(&read), vec![(b"r".to_vec(), vec![9, 8, 7])]);
}

#[test]
fn later_record_of_a_name_wins() {
    let mut file: Vec<u8> = b"FArc".to_vec();
    file.extend_from_slice(&(4u32 + 10 + 10).to_be_bytes());
    file.extend_from_slice(&[0, 0, 0, 0]);
    file.extend_from_slice(b"n\0");
    file.extend_from_slice(&32u32.to_be_bytes());
    file.extend_from_slice(&1u32.to_be_bytes());
    file.extend_from_slice(b"n\0");
    file.extend_from_slice(&33u32.to_be_bytes());
    file.extend_from_slice(&1u32.to_be_bytes());
    file.extend_from_slice(&[1, 2]);
    let read = Farc::from_parser(&file).unwrap();
    assert_eq!(contents(&read), vec![(b"n".to_vec(), vec![2])]);
}

#[test]
fn nul_in_name_is_refused() {
    let farc = build(&[("ok", b"1"), ("bad\0name", b"2")]);
    assert_eq!(farc.write_parser(false).err(), Some(FarcError::NulInName));
    assert_eq!(farc.write_parser(true).err(), Some(FarcError::NulInName));
}

#[test]
fn insert_replaces_content() {
    let farc = build(&[("k", b"old"), ("j", b"j"), ("k", b"new")]);
    assert_eq!(
        contents(&farc),
        vec![(b"j".to_vec(), b"j".to_vec()), (b"k".to_vec(), b"new".to_vec())]
    );
    assert_eq!(farc.len(), 2);
}
