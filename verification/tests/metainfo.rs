use minitorrent::bencode::Error;
use minitorrent::metainfo::{Info, MetaInfoFile};

// Two records of twenty bytes to stand for piece hashes.
const HASH_A: [u8; 20] = [b'a'; 20];
const HASH_B: [u8; 20] = [b'b'; 20];

#[test]
fn metainfo_test_valid_torrent() {
    // Construct a valid bencoded dictionary.
    // Keys: announce, info (sorted alphabetically)
    let mut input = Vec::new();
    input.extend_from_slice(b"d");

    input.extend_from_slice(b"8:announce15:http://test.com");

    input.extend_from_slice(b"4:info");
    input.extend_from_slice(b"d");
    input.extend_from_slice(b"6:lengthi1048576e");
    input.extend_from_slice(b"4:name10:test.image");
    input.extend_from_slice(b"12:piece lengthi16384e");

    // Pieces: 40 bytes total (2 chunks of 20)
    input.extend_from_slice(b"6:pieces40:");
    input.extend_from_slice(&HASH_A);
    input.extend_from_slice(&HASH_B);

    input.extend_from_slice(b"e");
    input.extend_from_slice(b"i3ei9e"); // Extra junk fields after 'info'
    input.extend_from_slice(b"e");

    let torrent = MetaInfoFile::parse(&input).expect("Should parse valid input");

    assert_eq!(
        torrent.info_hash,
        sha1_smol::Sha1::from(&input[35..input.len() - 1 - 6]) // Exclude trailing junk
            .digest()
            .bytes()
    );

    assert_eq!(torrent.announce, "http://test.com");
    assert_eq!(torrent.info.length, 1048576);
    assert_eq!(torrent.info.name, "test.image");
    assert_eq!(torrent.info.piece_length, 16384);

    // Verify pieces array extraction
    assert_eq!(torrent.info.pieces.len(), 2);
    assert_eq!(torrent.info.pieces[0], HASH_A);
    assert_eq!(torrent.info.pieces[1], HASH_B);
}

#[test]
fn metainfo_test_invalid_pieces_length() {
    // Pieces length is 21 (valid bencode string, but invalid for logic because 21 % 20 != 0)
    let input = b"d6:lengthi1e4:name1:a12:piece lengthi1e6:pieces21:123456789012345678901e";

    let result = Info::parse(input);

    match result {
        Err(Error::InvalidSyntax) => (), // Pass
        _ => panic!("Should have failed due to remaining bytes in piece chunks"),
    }
}

#[test]
fn metainfo_test_skips_unknown_fields() {
    // Valid bencode with extra "junk" fields injected.
    // "comment" and "some_stuff" are keys without a meaning.
    let mut input = Vec::new();
    input.extend_from_slice(b"d");

    input.extend_from_slice(b"7:comment15:this is ignored"); // Junk string
    input.extend_from_slice(b"6:lengthi100e");
    input.extend_from_slice(b"4:name3:log");
    input.extend_from_slice(b"12:piece lengthi16e");
    input.extend_from_slice(b"6:pieces20:");
    input.extend_from_slice(&HASH_A);
    input.extend_from_slice(b"10:some_stuffi999ee"); // Junk Integer inside dict

    input.extend_from_slice(b"e");

    let meta = Info::parse(&input).expect("Should successfully skip junk fields");

    assert_eq!(meta.name, "log");
    assert_eq!(meta.length, 100);
}

#[test]
fn metainfo_test_missing_mandatory_field() {
    // Missing "name" field
    let input = b"d6:lengthi100e12:piece lengthi16e6:pieces20:12345678901234567890e";

    let result = Info::parse(input);

    match result {
        Err(Error::UnknownField) => (), // Pass
        Ok(_) => panic!("Should fail because 'name' is missing"),
        Err(e) => panic!("Wrong error type: {:?}", e),
    }
}

#[test]
fn metainfo_test_empty_input_or_wrong_type() {
    // Input starts with 'i' (integer) instead of 'd' (dict)
    let result = Info::parse(b"i42e");
    assert!(matches!(result, Err(Error::ExpectedDict)));
}
