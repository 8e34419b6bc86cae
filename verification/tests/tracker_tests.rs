use bittorrent::metadata::parse_torrent;
use bittorrent::tracker::{
    parse_peers, parse_tracker_response, peers_for_torrent, tracker_request_url, PeerListError,
    TrackerError,
};

fn hex_to_bytes(s: &str) -> Vec<u8> {
    let digits: Vec<u8> = s
        .bytes()
        .map(|b| match b {
            b'0'..=b'9' => b - b'0',
            b'a'..=b'f' => b - b'a' + 10,
            _ => panic!("not a hex digit"),
        })
        .collect();
    digits.chunks(2).map(|p| p[0] * 16 + p[1]).collect()
}

fn sample_torrent_bytes() -> Vec<u8> {
    let mut bytes = Vec::new();
    bytes.extend_from_slice(b"d8:announce55:http://bittorrent-test-tracker.codecrafters.io/announce");
    bytes.extend_from_slice(b"10:created by13:mktorrent 1.1");
    bytes.extend_from_slice(b"4:infod6:lengthi92063e4:name10:sample.txt");
    bytes.extend_from_slice(b"12:piece lengthi32768e6:pieces60:");
    bytes.extend_from_slice(&hex_to_bytes(
        "e876f67a2a8886e8f36b136726c30fa29703022d\
         6e2275e604a0766656736e81ff10b55204ad8d35\
         f00d937a0213df1982bc8d097227ad9e909acc17",
    ));
    bytes.extend_from_slice(b"ee");
    bytes
}

fn sample_compact_peers() -> Vec<u8> {
    // 178.62.82.89:51470, 165.232.33.77:51467, 178.62.85.20:51489
    vec![
        178, 62, 82, 89, 0xc9, 0x0e, 165, 232, 33, 77, 0xc9, 0x0b, 178, 62, 85, 20, 0xc9, 0x21,
    ]
}

fn sample_response_body() -> Vec<u8> {
    let mut body = Vec::new();
    body.extend_from_slice(b"d8:completei3e10:incompletei1e8:intervali60e12:min intervali60e");
    body.extend_from_slice(b"5:peers18:");
    body.extend_from_slice(&sample_compact_peers());
    body.extend_from_slice(b"e");
    body
}

#[test]
fn test_peers() {
    let peers = peers_for_torrent(&sample_torrent_bytes(), &sample_response_body()).unwrap();
    let hardcoded_peers = vec![
        "178.62.82.89:51470",
        "165.232.33.77:51467",
        "178.62.85.20:51489",
    ];
    for (peer1, peer2) in peers.iter().zip(hardcoded_peers.iter()) {
        assert_eq!(peer1, peer2);
    }
    assert_eq!(peers.len(), 3);
}

#[test]
fn parse_peers_records() {
    let peers = parse_peers(&sample_compact_peers());
    assert_eq!(
        peers,
        vec![
            "178.62.82.89:51470".to_string(),
            "165.232.33.77:51467".to_string(),
            "178.62.85.20:51489".to_string(),
        ]
    );
    // port edge values, big-endian
    assert_eq!(parse_peers(&vec![0, 0, 0, 0, 0, 0]), vec!["0.0.0.0:0"]);
    assert_eq!(
        parse_peers(&vec![255, 255, 255, 255, 255, 255]),
        vec!["255.255.255.255:65535"]
    );
    assert_eq!(parse_peers(&vec![1, 2, 3, 4, 1, 0]), vec!["1.2.3.4:256"]);
    assert!(parse_peers(&Vec::new()).is_empty());
}

#[test]
fn parse_tracker_response_shape() {
    let r = parse_tracker_response(&sample_response_body()).unwrap();
    assert_eq!(r.interval, 60);
    assert_eq!(r.peers, sample_compact_peers());
}

#[test]
fn parse_tracker_response_errors() {
    // not a valid encoding
    assert!(matches!(
        parse_tracker_response(&b"garbage".to_vec()),
        Err(TrackerError::Parse(_))
    ));
    // a valid encoding that is not a dictionary
    assert!(matches!(
        parse_tracker_response(&b"le".to_vec()),
        Err(TrackerError::NotADict)
    ));
    // missing interval
    assert!(matches!(
        parse_tracker_response(&b"d5:peers0:e".to_vec()),
        Err(TrackerError::Interval)
    ));
    // missing peers
    assert!(matches!(
        parse_tracker_response(&b"d8:intervali60ee".to_vec()),
        Err(TrackerError::Peers)
    ));
    // peers of the wrong variant
    assert!(matches!(
        parse_tracker_response(&b"d8:intervali60e5:peersi1ee".to_vec()),
        Err(TrackerError::Peers)
    ));
    // peers not made of 6-byte records
    assert!(matches!(
        parse_tracker_response(&b"d8:intervali60e5:peers5:abcdee".to_vec()),
        Err(TrackerError::PeersLength)
    ));
}

#[test]
fn peers_for_torrent_errors() {
    assert!(matches!(
        peers_for_torrent(&b"junk".to_vec(), &sample_response_body()),
        Err(PeerListError::Torrent(_))
    ));
    assert!(matches!(
        peers_for_torrent(&sample_torrent_bytes(), &b"junk".to_vec()),
        Err(PeerListError::Tracker(_))
    ));
}

#[test]
fn tracker_request_url_query() {
    let t = parse_torrent(&sample_torrent_bytes()).unwrap();
    let url = tracker_request_url(&t, "00112233445566778899", 6881);
    assert_eq!(
        url,
        "http://bittorrent-test-tracker.codecrafters.io/announce\
         ?info_hash=%d6%9f%91%e6%b2%ae%4c%54%24%68%d1%07%3a%71%d4%ea%13%87%9a%7f\
         &peer_id=00112233445566778899&port=6881&uploaded=0&downloaded=0\
         &left=92063&compact=1"
    );
}
