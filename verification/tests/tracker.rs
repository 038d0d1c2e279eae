use minitorrent::tracker::{InfoHash, PeerId, TrackerRequest};

#[test]
fn tracker_test_tracker_request_url_encoding() {
    let info_hash: InfoHash = [0u8; 20];
    let peer_id: PeerId = [1u8; 20];
    let request = TrackerRequest::new(&info_hash, &peer_id, 6881, 1000);

    let url_encoded = request.to_url_encoded();
    assert!(
        url_encoded
            .contains("info_hash=%00%00%00%00%00%00%00%00%00%00%00%00%00%00%00%00%00%00%00")
    );
    assert!(
        url_encoded
            .contains("peer_id=%01%01%01%01%01%01%01%01%01%01%01%01%01%01%01%01%01%01%01%01")
    );
    assert!(url_encoded.contains("port=6881"));
    assert!(url_encoded.contains("uploaded=0"));
    assert!(url_encoded.contains("downloaded=0"));
    assert!(url_encoded.contains("left=1000"));
    assert!(url_encoded.contains("compact=1"));
}
