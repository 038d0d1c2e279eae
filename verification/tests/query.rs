use minitorrent::catalog::{is_torrent_name, takes};
use minitorrent::net::{percent_encode, push_decimal, seed};
use minitorrent::tracker::{InfoHash, PeerId, TrackerRequest};

#[test]
fn every_byte_becomes_two_capital_digits() {
    assert_eq!(percent_encode(b""), "");
    assert_eq!(percent_encode(&[0x00]), "%00");
    assert_eq!(percent_encode(&[0x0f, 0xf0]), "%0F%F0");
    assert_eq!(percent_encode(&[0xab, 0xcd, 0xef]), "%AB%CD%EF");
    assert_eq!(percent_encode(b"a~ %"), "%61%7E%20%25");
    assert_eq!(percent_encode(&[0x9a, 0x10, 0xff]), "%9A%10%FF");
}

#[test]
fn numbers_are_written_in_decimal() {
    for n in [0u32, 7, 10, 99, 100, 6881, 65535, 4294967295] {
        let mut out = String::from("n=");
        push_decimal(&mut out, n);
        assert_eq!(out, format!("n={}", n));
    }
}

#[test]
fn query_is_written_in_full() {
    let mut info_hash: InfoHash = [0u8; 20];
    info_hash[0] = 0xd6;
    info_hash[19] = 0x7f;
    let peer_id: PeerId = [b'-'; 20];
    let request = TrackerRequest::new(&info_hash, &peer_id, 65535, 4294967295);
    assert_eq!(
        request.to_url_encoded(),
        "info_hash=%D6%00%00%00%00%00%00%00%00%00%00%00%00%00%00%00%00%00%00%7F\
         &peer_id=%2D%2D%2D%2D%2D%2D%2D%2D%2D%2D%2D%2D%2D%2D%2D%2D%2D%2D%2D%2D\
         &port=65535&uploaded=0&downloaded=0&left=4294967295&compact=1"
    );
}

#[test]
fn seed_joins_two_words() {
    assert_eq!(seed(0, 0), 0);
    assert_eq!(seed(0, 1), 1);
    assert_eq!(seed(1, 0), 4294967296);
    assert_eq!(seed(0xdead_beef, 0x0bad_f00d), 0xdead_beef_0bad_f00d);
    assert_eq!(seed(u32::MAX, u32::MAX), u64::MAX);
}

#[test]
fn torrent_names() {
    assert!(is_torrent_name("example.torrent"));
    assert!(is_torrent_name("torrent"));
    assert!(is_torrent_name("sample.notorrent"));
    assert!(!is_torrent_name("example.torrent.bak"));
    assert!(!is_torrent_name("example.TORRENT"));
    assert!(!is_torrent_name("orrent"));
    assert!(!is_torrent_name(""));
    assert!(is_torrent_name("gr\u{fc}n.torrent"));
}

#[test]
fn first_torrent_is_taken() {
    assert!(takes(false, Some("a.torrent")));
    assert!(!takes(true, Some("a.torrent")));
    assert!(!takes(false, Some("a.txt")));
    assert!(!takes(false, None));
    assert!(!takes(true, None));
}
