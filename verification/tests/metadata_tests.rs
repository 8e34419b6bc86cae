use bittorrent::metadata::{parse_torrent, torrent_info, SchemaError, Torrent, TorrentError};

fn hex_to_bytes(s: &str) -> Vec<u8> {
    let digits: Vec<u8> = s
        .bytes()
        .map(|b| match b {
            b'0'..=b'9' => b - b'0',
            b'a'..=b'f' => b - b'a' + 10,
            _ => panic!("not a hex digit"),
        })
        .collect();
    digits.chunks(2).map(|p| p[0] * 16 + p[1]).collect()
}

fn sample_pieces() -> Vec<u8> {
    hex_to_bytes(
        "e876f67a2a8886e8f36b136726c30fa29703022d\
         6e2275e604a0766656736e81ff10b55204ad8d35\
         f00d937a0213df1982bc8d097227ad9e909acc17",
    )
}

fn sample_torrent_bytes() -> Vec<u8> {
    let mut bytes = Vec::new();
    bytes.extend_from_slice(b"d8:announce55:http://bittorrent-test-tracker.codecrafters.io/announce");
    bytes.extend_from_slice(b"10:created by13:mktorrent 1.1");
    bytes.extend_from_slice(b"4:infod6:lengthi92063e4:name10:sample.txt");
    bytes.extend_from_slice(b"12:piece lengthi32768e6:pieces60:");
    bytes.extend_from_slice(&sample_pieces());
    bytes.extend_from_slice(b"ee");
    bytes
}

fn sample_torrent() -> Torrent {
    parse_torrent(&sample_torrent_bytes()).unwrap()
}

#[test]
fn test_torrent_info() {
    assert_eq!(
        r#"Tracker URL: http://bittorrent-test-tracker.codecrafters.io/announce
Length: 92063
Info Hash: d69f91e6b2ae4c542468d1073a71d4ea13879a7f
Piece Length: 32768
Piece Hashes:e876f67a2a8886e8f36b136726c30fa29703022d
6e2275e604a0766656736e81ff10b55204ad8d35
f00d937a0213df1982bc8d097227ad9e909acc17"#,
        torrent_info(&sample_torrent_bytes()).unwrap()
    );
}

#[test]
fn parse_torrent_fields() {
    let t = sample_torrent();
    assert_eq!(
        t.announce,
        b"http://bittorrent-test-tracker.codecrafters.io/announce".to_vec()
    );
    assert_eq!(t.created_by, Some(b"mktorrent 1.1".to_vec()));
    assert_eq!(t.info.length, 92063);
    assert_eq!(t.info.name, b"sample.txt".to_vec());
    assert_eq!(t.info.piece_length, 32768);
    assert_eq!(t.info.pieces, sample_pieces());
    assert_eq!(
        t.info_hash,
        hex_to_bytes("d69f91e6b2ae4c542468d1073a71d4ea13879a7f")
    );
}

#[test]
fn content_identifier_is_deterministic() {
    let bytes = sample_torrent_bytes();
    let t1 = parse_torrent(&bytes).unwrap();
    let t2 = parse_torrent(&bytes).unwrap();
    assert_eq!(t1.info_hash, t2.info_hash);
    assert_eq!(t1.info_hash.len(), 20);
}

#[test]
fn formatted_info_hash_separators() {
    let t = sample_torrent();
    assert_eq!(
        "d69f91e6b2ae4c542468d1073a71d4ea13879a7f",
        t.formatted_info_hash("")
    );
    assert_eq!(
        "%d6%9f%91%e6%b2%ae%4c%54%24%68%d1%07%3a%71%d4%ea%13%87%9a%7f",
        t.formatted_info_hash("%")
    );
}

#[test]
fn piece_size_geometry() {
    let t = sample_torrent();
    // total length 92063 at piece length 32768: full, full, remainder
    assert_eq!(t.piece_size(0).unwrap(), 32768);
    assert_eq!(t.piece_size(1).unwrap(), 32768);
    assert_eq!(t.piece_size(2).unwrap(), 92063 - 32768 * 2);
    assert_eq!(t.piece_size(2).unwrap(), 26527);
    // an index beyond the last fails
    assert!(t.piece_size(3).is_err());
}

#[test]
fn piece_digest_slices() {
    let t = sample_torrent();
    assert_eq!(
        t.piece_digest(0).unwrap(),
        hex_to_bytes("e876f67a2a8886e8f36b136726c30fa29703022d")
    );
    assert_eq!(
        t.piece_digest(2).unwrap(),
        hex_to_bytes("f00d937a0213df1982bc8d097227ad9e909acc17")
    );
    assert!(t.piece_digest(3).is_err());
}

#[test]
fn parse_torrent_errors() {
    // not a valid encoding
    assert!(matches!(
        parse_torrent(&b"i-0e".to_vec()),
        Err(TorrentError::Parse(_))
    ));
    // a valid encoding that is not a dictionary
    assert!(matches!(
        parse_torrent(&b"i42e".to_vec()),
        Err(TorrentError::Schema(SchemaError::NotADict))
    ));
    // missing announce
    assert!(matches!(
        parse_torrent(&b"de".to_vec()),
        Err(TorrentError::Schema(SchemaError::Announce))
    ));
    // announce of the wrong variant
    assert!(matches!(
        parse_torrent(&b"d8:announcei1ee".to_vec()),
        Err(TorrentError::Schema(SchemaError::Announce))
    ));
    // missing info
    assert!(matches!(
        parse_torrent(&b"d8:announce3:abce".to_vec()),
        Err(TorrentError::Schema(SchemaError::Info))
    ));
    // info of the wrong variant
    assert!(matches!(
        parse_torrent(&b"d8:announce3:abc4:infoi1ee".to_vec()),
        Err(TorrentError::Schema(SchemaError::Info))
    ));
    // created by of the wrong variant
    assert!(matches!(
        parse_torrent(&b"d8:announce3:abc10:created byi1e4:infodee".to_vec()),
        Err(TorrentError::Schema(SchemaError::CreatedBy))
    ));
    // missing length
    assert!(matches!(
        parse_torrent(&b"d8:announce3:abc4:infodee".to_vec()),
        Err(TorrentError::Schema(SchemaError::Length))
    ));
    // length of the wrong variant
    assert!(matches!(
        parse_torrent(&b"d8:announce3:abc4:infod6:length1:xee".to_vec()),
        Err(TorrentError::Schema(SchemaError::Length))
    ));
    // missing name
    assert!(matches!(
        parse_torrent(&b"d8:announce3:abc4:infod6:lengthi1eee".to_vec()),
        Err(TorrentError::Schema(SchemaError::Name))
    ));
    // missing piece length
    assert!(matches!(
        parse_torrent(&b"d8:announce3:abc4:infod6:lengthi1e4:name1:fee".to_vec()),
        Err(TorrentError::Schema(SchemaError::PieceLength))
    ));
    // missing pieces
    assert!(matches!(
        parse_torrent(
            &b"d8:announce3:abc4:infod6:lengthi1e4:name1:f12:piece lengthi1eee".to_vec()
        ),
        Err(TorrentError::Schema(SchemaError::Pieces))
    ));
}

#[test]
fn parse_torrent_geometry_errors() {
    // pieces not a multiple of 20 bytes
    let bad = b"d8:announce3:abc4:infod6:lengthi1e4:name1:f12:piece lengthi1e6:pieces3:abcee"
        .to_vec();
    assert!(matches!(
        parse_torrent(&bad),
        Err(TorrentError::Schema(SchemaError::Geometry))
    ));
    // piece count does not match ceil(length / piece length)
    let mut mismatched = Vec::new();
    mismatched.extend_from_slice(
        b"d8:announce3:abc4:infod6:lengthi50e4:name1:f12:piece lengthi10e6:pieces20:",
    );
    mismatched.extend_from_slice(&[0u8; 20]);
    mismatched.extend_from_slice(b"ee");
    assert!(matches!(
        parse_torrent(&mismatched),
        Err(TorrentError::Schema(SchemaError::Geometry))
    ));
    // negative length
    let neg = b"d8:announce3:abc4:infod6:lengthi-1e4:name1:f12:piece lengthi1e6:pieces0:ee"
        .to_vec();
    assert!(matches!(
        parse_torrent(&neg),
        Err(TorrentError::Schema(SchemaError::Geometry))
    ));
}

#[test]
fn parse_torrent_empty_file() {
    // a zero-length file has no pieces
    let empty =
        b"d8:announce3:abc4:infod6:lengthi0e4:name1:f12:piece lengthi5e6:pieces0:ee".to_vec();
    let t = parse_torrent(&empty).unwrap();
    assert_eq!(t.info.length, 0);
    assert!(t.piece_size(0).is_err());
    assert!(t.piece_digest(0).is_err());
}
