use miniar::field::{parse_decimal, trim_bytes};
use miniar::{
    build_index, decode_header, encode_header, extract, pack, run, ArError, Archive, Config,
    Operation, Outcome, Source,
};

const SIG: &[u8] = b"!<arch>\n";

fn header(name: &str, mode: &str, size: &str) -> Vec<u8> {
    let mut h = Vec::new();
    h.extend_from_slice(format!("{:<16}", name).as_bytes());
    h.extend_from_slice(format!("{:<12}", "0").as_bytes());
    h.extend_from_slice(format!("{:<6}", "0").as_bytes());
    h.extend_from_slice(format!("{:<6}", "0").as_bytes());
    h.extend_from_slice(format!("{:<8}", mode).as_bytes());
    h.extend_from_slice(format!("{:<10}", size).as_bytes());
    h.extend_from_slice(b"`\n");
    assert_eq!(h.len(), 60);
    h
}

fn hello_archive() -> Vec<u8> {
    let mut a = SIG.to_vec();
    a.extend_from_slice(&header("hello.txt", "644", "5"));
    a.extend_from_slice(b"world");
    a.push(0x0A);
    a
}

fn source(name: &str, mode: u32, contents: &[u8]) -> Source {
    Source { name: name.as_bytes().to_vec(), mode, contents: contents.to_vec() }
}

fn args(words: &[&str]) -> Vec<String> {
    words.iter().map(|w| w.to_string()).collect()
}

#[test]
fn hello_archive_indexes_and_extracts() {
    let data = hello_archive();
    let files = build_index(&data).unwrap();
    assert_eq!(files.len(), 1);
    assert_eq!(trim_bytes(&files[0].name, true), b"hello.txt".to_vec());
    assert_eq!(files[0].name, b"hello.txt       ".to_vec());
    assert_eq!(files[0].size, 5);
    assert_eq!(files[0].offset, 8 + 60);
    assert_eq!(files[0].mode, b"644     ".to_vec());
    assert_eq!(files[0].timestamp, b"0           ".to_vec());
    let out = extract(&data, &files);
    assert_eq!(out.len(), 1);
    assert_eq!(out[0].name, b"hello.txt".to_vec());
    assert_eq!(out[0].contents, b"world".to_vec());
}

#[test]
fn packing_three_and_four_bytes() {
    let bytes = pack(&vec![source("a", 0o644, b"abc"), source("b", 0o644, b"defg")]).unwrap();
    assert_eq!(bytes.len(), 8 + (60 + 3 + 1) + (60 + 4 + 0));
    assert_eq!(&bytes[0..8], SIG);
    assert_eq!(bytes[8 + 60 + 3], 0x0A);
    let files = build_index(&bytes).unwrap();
    assert_eq!(files.len(), 2);
    assert_eq!(files[0].offset, 68);
    assert_eq!(files[1].offset, 68 + 3 + 1 + 60);
    assert_eq!(files[1].size, 4);
}

#[test]
fn bad_end_marker_discards_earlier_entries() {
    let mut data = hello_archive();
    let mut bad = header("second", "644", "2");
    bad[58] = 0;
    bad[59] = 0;
    data.extend_from_slice(&bad);
    data.extend_from_slice(b"xy");
    assert_eq!(build_index(&data).unwrap_err(), ArError::EndMarkerMismatch);
    let mut archive = Archive::from_bytes(data);
    assert_eq!(archive.read_files(), Err(ArError::EndMarkerMismatch));
    assert!(archive.files.is_empty());
}

#[test]
fn wrong_signature_is_rejected() {
    let mut data = hello_archive();
    data[1] = b'?';
    assert_eq!(build_index(&data).unwrap_err(), ArError::SignatureMismatch);
    assert_eq!(build_index(b"!<arch>").unwrap_err(), ArError::SignatureMismatch);
    assert_eq!(build_index(b"").unwrap_err(), ArError::SignatureMismatch);
}

#[test]
fn signature_alone_has_no_entries() {
    assert!(build_index(SIG).unwrap().is_empty());
    let mut short = SIG.to_vec();
    short.extend_from_slice(&[b' '; 59]);
    assert!(build_index(&short).unwrap().is_empty());
}

#[test]
fn unparsable_size_is_an_error() {
    let mut data = SIG.to_vec();
    data.extend_from_slice(&header("f", "644", "12a"));
    assert_eq!(build_index(&data).unwrap_err(), ArError::SizeFieldUnparsable);
    let mut blank = SIG.to_vec();
    blank.extend_from_slice(&header("f", "644", ""));
    assert_eq!(build_index(&blank).unwrap_err(), ArError::SizeFieldUnparsable);
    let mut negative = SIG.to_vec();
    negative.extend_from_slice(&header("f", "644", "-3"));
    assert_eq!(build_index(&negative).unwrap_err(), ArError::SizeFieldUnparsable);
}

#[test]
fn header_round_trip() {
    let h = encode_header(b"notes.md", 0o755, 1234).unwrap();
    let f = decode_header(&h, 0).unwrap();
    assert_eq!(f.name, b"notes.md        ".to_vec());
    assert_eq!(f.timestamp, b"0           ".to_vec());
    assert_eq!(f.owner, b"0     ".to_vec());
    assert_eq!(f.group, b"0     ".to_vec());
    assert_eq!(f.mode, b"755     ".to_vec());
    assert_eq!(f.size, 1234);
    assert_eq!(f.offset, 60);
}

#[test]
fn encoded_header_bytes() {
    let h = encode_header(b"a", 0o100644, 5).unwrap();
    assert_eq!(h, header("a", "100644", "5"));
    let h = encode_header(b"sixteen-bytes-xx", 0o77777777, 9_999_999_999).unwrap();
    assert_eq!(h, header("sixteen-bytes-xx", "77777777", "9999999999"));
}

#[test]
fn fields_that_do_not_fit_are_rejected() {
    assert_eq!(encode_header(b"seventeen-bytes-x", 0o644, 1), Err(ArError::NameTooLong));
    assert_eq!(encode_header(b"a", 0o100000000, 1), Err(ArError::ModeTooLarge));
    assert_eq!(encode_header(b"a", 0o644, 10_000_000_000), Err(ArError::SizeTooLarge));
    let r = pack(&vec![source("ok", 0o644, b"x"), source("a-name-far-too-long", 0o644, b"y")]);
    assert_eq!(r, Err(ArError::NameTooLong));
}

#[test]
fn extract_then_repack_keeps_size_and_payload() {
    for n in 0..6usize {
        let payload: Vec<u8> = (0..n as u8).map(|b| b'a' + b).collect();
        let original = pack(&vec![source("m", 0o600, &payload)]).unwrap();
        let files = build_index(&original).unwrap();
        let out = extract(&original, &files);
        let again = pack(&vec![Source {
            name: out[0].name.clone(),
            mode: 0o600,
            contents: out[0].contents.clone(),
        }])
        .unwrap();
        let refiles = build_index(&again).unwrap();
        assert_eq!(refiles[0].size, files[0].size);
        assert_eq!(extract(&again, &refiles)[0].contents, payload);
        assert_eq!(again, original);
    }
}

#[test]
fn odd_payload_is_followed_by_pad() {
    let bytes = pack(&vec![
        source("one", 0o644, b"abcde"),
        source("two", 0o644, b"zz"),
        source("three", 0o644, b"q"),
    ])
    .unwrap();
    let files = build_index(&bytes).unwrap();
    assert_eq!(files.len(), 3);
    for i in 0..3 {
        let end = files[i].offset as usize + files[i].size as usize;
        if files[i].size % 2 == 1 {
            assert_eq!(bytes[end], 0x0A);
        }
        if i + 1 < files.len() {
            let pad = (files[i].size % 2) as u64;
            assert_eq!(files[i + 1].offset, files[i].offset + files[i].size as u64 + pad + 60);
        }
    }
    assert_eq!(bytes.len(), 8 + (60 + 6) + (60 + 2) + (60 + 2));
}

#[test]
fn truncated_payload_extracts_what_is_there() {
    let mut data = SIG.to_vec();
    data.extend_from_slice(&header("cut", "644", "10"));
    data.extend_from_slice(b"abc");
    let files = build_index(&data).unwrap();
    assert_eq!(files.len(), 1);
    let out = extract(&data, &files);
    assert_eq!(out[0].contents, b"abc".to_vec());
    assert_eq!(out[0].size, 10);
}

#[test]
fn name_is_trimmed_of_whitespace() {
    let mut data = SIG.to_vec();
    data.extend_from_slice(&header(" spaced\t", "644", "0"));
    let files = build_index(&data).unwrap();
    let out = extract(&data, &files);
    assert_eq!(out[0].name, b"spaced".to_vec());
    assert!(out[0].contents.is_empty());
}

#[test]
fn size_field_parsing() {
    assert_eq!(parse_decimal(b"  42      "), Some(42));
    assert_eq!(parse_decimal(b"0000000007"), Some(7));
    assert_eq!(parse_decimal(b"9999999999"), Some(9_999_999_999));
    assert_eq!(parse_decimal(b"4 2"), None);
    assert_eq!(parse_decimal(b"          "), None);
    assert_eq!(trim_bytes(b"  a b  ", false), b"a b".to_vec());
    assert_eq!(trim_bytes(b"\ta\n", false), b"\ta\n".to_vec());
    assert_eq!(trim_bytes(b"\ta\n", true), b"a".to_vec());
}

#[test]
fn config_reads_command_words() {
    assert_eq!(Config::new(&args(&["ar", "x"])).unwrap_err(), "Incorrect number of arguments.");
    assert_eq!(Config::new(&args(&["ar", "q", "f.a"])).unwrap_err(), "Unknown option");
    let c = Config::new(&args(&["ar", "c", "f.a", "one", "two"])).unwrap();
    assert_eq!(c.operation, Operation::Pack);
    assert_eq!(c.file, "f.a");
    assert_eq!(c.files, args(&["one", "two"]));
    let l = Config::new(&args(&["ar", "ls", "f.a", "ignored"])).unwrap();
    assert_eq!(l.operation, Operation::List);
    assert!(l.files.is_empty());
    let x = Config::new(&args(&["ar", "x", "f.a"])).unwrap();
    assert_eq!(x.operation, Operation::Unpack);
}

#[test]
fn run_lists_extracts_and_packs() {
    let list = Config::new(&args(&["ar", "ls", "f.a"])).unwrap();
    match run(&list, hello_archive(), &Vec::new()).unwrap() {
        Outcome::Listing(files) => assert_eq!(files[0].size, 5),
        other => panic!("unexpected {:?}", other),
    }
    let unpack = Config::new(&args(&["ar", "x", "f.a"])).unwrap();
    match run(&unpack, hello_archive(), &Vec::new()).unwrap() {
        Outcome::Extracted(out) => assert_eq!(out[0].contents, b"world".to_vec()),
        other => panic!("unexpected {:?}", other),
    }
    assert_eq!(run(&unpack, b"junk".to_vec(), &Vec::new()).unwrap_err(), ArError::SignatureMismatch);
    let create = Config::new(&args(&["ar", "c", "f.a", "hello.txt"])).unwrap();
    match run(&create, Vec::new(), &vec![source("hello.txt", 0o644, b"world")]).unwrap() {
        Outcome::Packed(bytes) => {
            let mut expected = SIG.to_vec();
            expected.extend_from_slice(&header("hello.txt", "644", "5"));
            expected.extend_from_slice(b"world\n");
            assert_eq!(bytes, expected);
        }
        other => panic!("unexpected {:?}", other),
    }
}

#[test]
fn archive_methods_pack_and_read() {
    let mut a = Archive::new();
    a.pack_files(&vec![source("x", 0o644, b"12345")]).unwrap();
    let mut b = Archive::from_bytes(a.data.clone());
    b.read_files().unwrap();
    assert_eq!(b.files.len(), 1);
    let out = b.unpack_files();
    assert_eq!(out[0].name, b"x".to_vec());
    assert_eq!(out[0].contents, b"12345".to_vec());
}

#[test]
fn read_files_adds_to_held_entries() {
    let mut a = Archive::from_bytes(hello_archive());
    a.read_files().unwrap();
    a.read_files().unwrap();
    assert_eq!(a.files.len(), 2);
    assert_eq!(a.files[1].offset, 68);
}

#[test]
fn read_files_keeps_held_entries_on_error() {
    let mut a = Archive::from_bytes(hello_archive());
    a.read_files().unwrap();
    let mut broken = hello_archive();
    broken.extend_from_slice(&header("bad", "644", "1x"));
    a.data = broken;
    assert_eq!(a.read_files(), Err(ArError::SizeFieldUnparsable));
    assert_eq!(a.files.len(), 1);
    a.data = b"not an archive".to_vec();
    assert_eq!(a.read_files(), Err(ArError::SignatureMismatch));
    assert_eq!(a.files.len(), 1);
    assert_eq!(a.files[0].size, 5);
}

#[test]
fn pack_files_appends_to_held_bytes() {
    let mut a = Archive::from_bytes(vec![0xFF]);
    a.pack_files(&vec![source("x", 0o644, b"ab")]).unwrap();
    assert_eq!(a.data.len(), 1 + 8 + 60 + 2);
    assert_eq!(a.data[0], 0xFF);
    assert_eq!(&a.data[1..9], SIG);
    assert_eq!(a.pack_files(&vec![source("seventeen-bytes-x", 0o644, b"")]), Err(ArError::NameTooLong));
    assert_eq!(a.data.len(), 1 + 8 + 60 + 2);
}

#[test]
fn plus_signed_size_is_accepted() {
    assert_eq!(parse_decimal(b"+5        "), Some(5));
    assert_eq!(parse_decimal(b"  +12     "), Some(12));
    assert_eq!(parse_decimal(b"+         "), None);
    assert_eq!(parse_decimal(b"++5       "), None);
    assert_eq!(parse_decimal(b"+-5       "), None);
    let mut data = SIG.to_vec();
    data.extend_from_slice(&header("p", "644", "+3"));
    data.extend_from_slice(b"abc\n");
    let files = build_index(&data).unwrap();
    assert_eq!(files[0].size, 3);
}

#[test]
fn bad_end_marker_after_handwritten_records() {
    let mut data = SIG.to_vec();
    data.extend_from_slice(&header("first", "600", "003"));
    data.extend_from_slice(b"abc\n");
    data.extend_from_slice(&header("second", "600", "0"));
    let mut bad = header("third", "600", "1");
    bad[58] = 0;
    bad[59] = 0;
    data.extend_from_slice(&bad);
    assert_eq!(build_index(&data).unwrap_err(), ArError::EndMarkerMismatch);
}
