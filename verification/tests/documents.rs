use minitorrent::bencode::Error;
use minitorrent::metainfo::{Info, MetaInfoFile};
use minitorrent::torrent::MetaInfo;

const FIRST: [u8; 20] = [b'a'; 20];
const SECOND: [u8; 20] = [b'b'; 20];

// The SHA-1 digest of `plain_info()`.
const PLAIN_DIGEST: [u8; 20] = [
    155, 8, 248, 198, 95, 124, 114, 226, 226, 38, 250, 45, 179, 89, 94, 66, 118, 83, 13, 101,
];

// The SHA-1 digest of `binary_info()`.
const BINARY_DIGEST: [u8; 20] = [
    142, 82, 134, 140, 251, 137, 174, 82, 185, 201, 8, 138, 97, 70, 191, 83, 181, 158, 74, 204,
];

fn plain_info() -> Vec<u8> {
    let mut info = Vec::new();
    info.extend_from_slice(b"d6:lengthi1048576e4:name10:test.image12:piece lengthi16384e");
    info.extend_from_slice(b"6:pieces40:");
    info.extend_from_slice(&FIRST);
    info.extend_from_slice(&SECOND);
    info.extend_from_slice(b"e");
    info
}

fn binary_record() -> [u8; 20] {
    let mut record = [0u8; 20];
    for (i, byte) in record.iter_mut().enumerate() {
        *byte = 236 + i as u8;
    }
    record
}

fn binary_info() -> Vec<u8> {
    let mut info = Vec::new();
    info.extend_from_slice(b"d6:lengthi5e4:name1:x12:piece lengthi1e6:pieces20:");
    info.extend_from_slice(&binary_record());
    info.extend_from_slice(b"e");
    info
}

fn document(before: &[u8], info: &[u8], after: &[u8]) -> Vec<u8> {
    let mut out = Vec::new();
    out.extend_from_slice(b"d");
    out.extend_from_slice(before);
    out.extend_from_slice(b"4:info");
    out.extend_from_slice(info);
    out.extend_from_slice(after);
    out
}

#[test]
fn plain_document_decodes() {
    let input = document(b"8:announce15:http://test.com", &plain_info(), b"e");
    let torrent = MetaInfoFile::parse(&input).unwrap();
    assert_eq!(torrent.announce, "http://test.com");
    assert_eq!(torrent.info.length, 1048576);
    assert_eq!(torrent.info.name, "test.image");
    assert_eq!(torrent.info.piece_length, 16384);
    assert_eq!(torrent.info.pieces, &[FIRST, SECOND]);
    assert_eq!(torrent.info_hash, PLAIN_DIGEST);
}

#[test]
fn digest_is_that_of_the_info_bytes() {
    let info = plain_info();
    let input = document(b"8:announce15:http://test.com", &info, b"e");
    let torrent = MetaInfoFile::parse(&input).unwrap();
    assert_eq!(torrent.info_hash, sha1_smol::Sha1::from(&info).digest().bytes());
    assert_eq!(&input[35..input.len() - 1], &info[..]);
    // The digest is none of the bytes that went in.
    assert_ne!(&torrent.info_hash[..], &info[..20]);
}

#[test]
fn digest_ignores_what_surrounds_the_info() {
    let info = plain_info();
    for (before, after) in [
        (&b"8:announce15:http://test.com"[..], &b"e"[..]),
        (b"8:announce15:http://test.com", b"i3ei9ee"),
        (b"8:announce15:http://test.com", b""),
        (b"8:announce15:http://test.com", b"\xffnot even a value"),
        (b"7:comment4:none8:announce15:http://test.com", b"e"),
        (b"1:ali1ei2ee8:announce15:http://test.com", b"e"),
        (b"8:announce15:http://test.com7:comment4:none", b"e"),
        (b"8:announce15:http://test.com13:creation datei1e4:httpd1:ale1:bdee", b"5:nodesle"),
    ] {
        let input = document(before, &info, after);
        let torrent = MetaInfoFile::parse(&input).unwrap();
        assert_eq!(torrent.announce, "http://test.com");
        assert_eq!(torrent.info_hash, PLAIN_DIGEST);
        assert_eq!(torrent.info.pieces.len(), 2);
    }
}

#[test]
fn digest_covers_keys_that_the_info_does_not_know() {
    let mut info = Vec::new();
    info.extend_from_slice(b"d6:lengthi1e4:name1:x12:piece lengthi1e6:pieces0:7:privatei1ee");
    let input = document(b"8:announce1:u", &info, b"e");
    let torrent = MetaInfoFile::parse(&input).unwrap();
    assert_eq!(torrent.info_hash, sha1_smol::Sha1::from(&info).digest().bytes());
    assert_eq!(torrent.info.pieces.len(), 0);
}

#[test]
fn pieces_may_hold_any_bytes() {
    let input = document(b"8:announce3:url", &binary_info(), b"e");
    let torrent = MetaInfoFile::parse(&input).unwrap();
    assert_eq!(torrent.info.pieces, &[binary_record()]);
    assert_eq!(torrent.info.length, 5);
    assert_eq!(torrent.info_hash, BINARY_DIGEST);
}

#[test]
fn last_announce_is_kept() {
    let input = document(b"8:announce3:old8:announce3:new", &plain_info(), b"e");
    assert_eq!(MetaInfoFile::parse(&input).unwrap().announce, "new");
}

#[test]
fn document_must_be_a_dictionary() {
    for input in [&b""[..], b"i42e", b"l4:infodee", b"4:info", b"e"] {
        assert!(matches!(MetaInfoFile::parse(input), Err(Error::ExpectedDict)));
    }
}

#[test]
fn document_without_info_misses_a_field() {
    assert!(matches!(MetaInfoFile::parse(b"de"), Err(Error::UnknownField)));
    assert!(matches!(
        MetaInfoFile::parse(b"d8:announce3:urle"),
        Err(Error::UnknownField)
    ));
}

#[test]
fn document_without_announce_misses_a_field() {
    let input = document(b"", &plain_info(), b"e");
    assert!(matches!(MetaInfoFile::parse(&input), Err(Error::UnknownField)));
}

#[test]
fn announce_behind_info_is_not_seen() {
    let input = document(b"", &plain_info(), b"8:announce15:http://test.come");
    assert!(matches!(MetaInfoFile::parse(&input), Err(Error::UnknownField)));
}

#[test]
fn failure_of_the_info_comes_first() {
    // No announce, and an info dictionary whose pieces are not whole records.
    let input = document(b"", b"d6:pieces1:xe", b"e");
    assert!(matches!(MetaInfoFile::parse(&input), Err(Error::InvalidSyntax)));
    let input = document(b"", b"i1e", b"e");
    assert!(matches!(MetaInfoFile::parse(&input), Err(Error::ExpectedDict)));
}

#[test]
fn failures_of_the_outer_dictionary() {
    assert!(matches!(
        MetaInfoFile::parse(b"d8:announcei1ee"),
        Err(Error::ExpectedString)
    ));
    assert!(matches!(
        MetaInfoFile::parse(b"d8:announce2:\xc3\x28e"),
        Err(Error::InvalidUtf8)
    ));
    assert!(matches!(
        MetaInfoFile::parse(b"d3:\xff\xff\xffi1ee"),
        Err(Error::InvalidUtf8)
    ));
    assert!(matches!(
        MetaInfoFile::parse(b"d8:announce10:too short"),
        Err(Error::UnexpectedEof)
    ));
    assert!(matches!(
        MetaInfoFile::parse(b"d4:infod1:a"),
        Err(Error::InvalidSyntax)
    ));
    assert!(matches!(
        MetaInfoFile::parse(b"d8:announce3:url"),
        Err(Error::ExpectedString)
    ));
    assert!(matches!(
        MetaInfoFile::parse(b"di1e3:urle"),
        Err(Error::InvalidSyntax)
    ));
}

#[test]
fn outline_finds_the_address_and_the_info_bytes() {
    let info = plain_info();
    let input = document(b"8:announce3:url", &info, b"i3ee");
    let (announce, span) = MetaInfoFile::outline(&input).unwrap();
    assert_eq!(announce, Some("url"));
    assert_eq!(span, Some(&info[..]));

    let (announce, span) = MetaInfoFile::outline(b"d4:infoi7e8:announce3:urle").unwrap();
    assert_eq!(announce, None);
    assert_eq!(span, Some(&b"i7e"[..]));

    let (announce, span) = MetaInfoFile::outline(b"d8:announce3:urle").unwrap();
    assert_eq!(announce, Some("url"));
    assert_eq!(span, None);

    assert!(matches!(MetaInfoFile::outline(b"le"), Err(Error::ExpectedDict)));
    assert!(matches!(
        MetaInfoFile::outline(b"d1:a"),
        Err(Error::InvalidSyntax)
    ));
}

#[test]
fn assemble_takes_the_digest_as_given() {
    let info = plain_info();
    let digest = [7u8; 20];
    let torrent = MetaInfoFile::assemble(Some("url"), &info, digest).unwrap();
    assert_eq!(torrent.announce, "url");
    assert_eq!(torrent.info_hash, digest);
    assert_eq!(torrent.info.name, "test.image");
    assert_eq!(torrent.info.pieces, &[FIRST, SECOND]);
}

#[test]
fn assemble_decodes_the_info_before_it_asks_for_the_address() {
    assert!(matches!(
        MetaInfoFile::assemble(None, &plain_info(), [0u8; 20]),
        Err(Error::UnknownField)
    ));
    assert!(matches!(
        MetaInfoFile::assemble(None, b"i1e", [0u8; 20]),
        Err(Error::ExpectedDict)
    ));
    assert!(matches!(
        MetaInfoFile::assemble(Some("url"), b"de", [0u8; 20]),
        Err(Error::UnknownField)
    ));
}

#[test]
fn pieces_are_cut_into_records_in_order() {
    let mut input = Vec::new();
    input.extend_from_slice(b"d6:lengthi1e4:name1:a12:piece lengthi1e6:pieces60:");
    let content: Vec<u8> = (0..60).collect();
    input.extend_from_slice(&content);
    input.extend_from_slice(b"e");
    let info = Info::parse(&input).unwrap();
    assert_eq!(info.pieces.len(), 3);
    for (i, record) in info.pieces.iter().enumerate() {
        assert_eq!(&record[..], &content[20 * i..20 * i + 20]);
    }
}

#[test]
fn pieces_of_any_other_length_are_bad_syntax() {
    for n in [1usize, 19, 21, 39, 41] {
        let mut input = Vec::new();
        input.extend_from_slice(b"d6:lengthi1e4:name1:a12:piece lengthi1e6:pieces");
        input.extend_from_slice(format!("{}:", n).as_bytes());
        input.extend_from_slice(&vec![b'x'; n]);
        input.extend_from_slice(b"e");
        assert!(matches!(Info::parse(&input), Err(Error::InvalidSyntax)));
    }
}

#[test]
fn empty_pieces_are_no_records() {
    let info = Info::parse(b"d6:lengthi1e4:name1:a12:piece lengthi1e6:pieces0:e").unwrap();
    assert_eq!(info.pieces.len(), 0);
}

#[test]
fn numbers_of_the_info_are_narrowed() {
    let info =
        Info::parse(b"d6:lengthi4294967297e4:name1:a12:piece lengthi-1e6:pieces0:e").unwrap();
    assert_eq!(info.length, 1);
    assert_eq!(info.piece_length, 4294967295);
    let info = Info::parse(
        b"d6:lengthi-9223372036854775808e4:name1:a12:piece lengthi9223372036854775807e6:pieces0:e",
    )
    .unwrap();
    assert_eq!(info.length, 0);
    assert_eq!(info.piece_length, 4294967295);
}

#[test]
fn each_field_of_the_info_is_required() {
    for input in [
        &b"de"[..],
        b"d4:name1:a12:piece lengthi1e6:pieces0:e",
        b"d6:lengthi1e12:piece lengthi1e6:pieces0:e",
        b"d6:lengthi1e4:name1:a6:pieces0:e",
        b"d6:lengthi1e4:name1:a12:piece lengthi1ee",
        // A list of files in the place of a length.
        b"d5:filesle4:name1:a12:piece lengthi1e6:pieces0:e",
    ] {
        assert!(matches!(Info::parse(input), Err(Error::UnknownField)));
    }
}

#[test]
fn fields_of_the_info_come_in_any_order_and_the_last_is_kept() {
    let info = Info::parse(
        b"d6:pieces0:4:name1:a12:piece lengthi1e6:lengthi2e4:name1:b6:lengthi3ee",
    )
    .unwrap();
    assert_eq!(info.name, "b");
    assert_eq!(info.length, 3);
    assert_eq!(info.piece_length, 1);
}

#[test]
fn failures_of_the_info() {
    assert!(matches!(Info::parse(b""), Err(Error::ExpectedDict)));
    assert!(matches!(
        Info::parse(b"d6:length4:spame"),
        Err(Error::ExpectedInteger)
    ));
    assert!(matches!(
        Info::parse(b"d12:piece length1:1e"),
        Err(Error::ExpectedInteger)
    ));
    assert!(matches!(
        Info::parse(b"d4:namei1ee"),
        Err(Error::ExpectedString)
    ));
    assert!(matches!(
        Info::parse(b"d4:name1:\xffe"),
        Err(Error::InvalidUtf8)
    ));
    assert!(matches!(
        Info::parse(b"d6:pieces20:short"),
        Err(Error::UnexpectedEof)
    ));
    assert!(matches!(
        Info::parse(b"d6:lengthi1e4:name1:a12:piece lengthi1e6:pieces0:"),
        Err(Error::ExpectedString)
    ));
    assert!(matches!(
        Info::parse(b"d6:lengthi99999999999999999999ee"),
        Err(Error::InvalidSyntax)
    ));
}

#[test]
fn flat_description_decodes() {
    let meta =
        MetaInfo::parse(b"d4:name1:n7:unknownl1:ae6:lengthi-5e8:announce1:ae").unwrap();
    assert_eq!(meta, MetaInfo { announce: "a", length: -5, name: "n" });
}

#[test]
fn flat_description_keeps_the_whole_length() {
    let meta = MetaInfo::parse(b"d8:announce1:a6:lengthi9223372036854775807e4:name1:ne").unwrap();
    assert_eq!(meta.length, i64::MAX);
}

#[test]
fn flat_description_fails_as_its_values_do() {
    assert!(matches!(
        MetaInfo::parse(b"d8:announce1:\xffe"),
        Err(Error::InvalidUtf8)
    ));
    assert!(matches!(
        MetaInfo::parse(b"d6:lengthi1"),
        Err(Error::InvalidSyntax)
    ));
    assert!(matches!(
        MetaInfo::parse(b"d4:name5:ab"),
        Err(Error::UnexpectedEof)
    ));
    assert!(matches!(MetaInfo::parse(b""), Err(Error::ExpectedDict)));
}

#[test]
fn checked_decoding_is_decoding_where_the_length_allows() {
    let input = document(b"8:announce15:http://test.com", &plain_info(), b"e");
    let torrent = MetaInfoFile::parse_checked(&input).unwrap().unwrap();
    assert_eq!(torrent, MetaInfoFile::parse(&input).unwrap());
    assert_eq!(torrent.info_hash, PLAIN_DIGEST);
    assert!(matches!(
        MetaInfoFile::parse_checked(b"i1e"),
        Some(Err(Error::ExpectedDict))
    ));
}
