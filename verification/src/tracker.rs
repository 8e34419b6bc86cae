//! The coordination client: building the announce query and decoding
//! the compact peer-list response.  The HTTP exchange itself happens
//! outside the library; these functions compute the request text from a
//! parsed metadata value and interpret the response bytes.
use vstd::prelude::*;
use vstd::string::StringSliceAdditionalSpecFns;

use crate::bencode::{valid_encoding, vm, vm_entries, ParseError, Value, ValueModel};
use crate::decimal::{dec_of, int_dec_of};
use crate::decode::decode;
use crate::digest::hex_sep;
use crate::metadata::{lookup, parse_torrent, torrent_spec, Torrent, TorrentError};
use crate::text::{ascii_chars_of, copy_bytes, lossy_of, utf8_lossy};

verus! {

/// Why a coordination-server response was rejected.
#[derive(Debug, Clone, Copy, PartialEq, Eq, Structural)]
pub enum TrackerError {
    /// The response body is not one valid encoding.
    Parse(ParseError),
    /// The response decoded but is not a dictionary.
    NotADict,
    /// No `interval` integer.
    Interval,
    /// No `peers` byte string.
    Peers,
    /// The `peers` byte string is not made of 6-byte records.
    PeersLength,
    /// The server answered with a non-success status code; produced at
    /// the network boundary.
    Status(u16),
}

/// A decoded coordination-server response: the poll interval and the
/// compact peer list, one 6-byte record per peer.
#[derive(Debug, PartialEq, Eq)]
pub struct TrackerResponse {
    pub interval: i64,
    pub peers: Vec<u8>,
}

/// What a response body must hold: a dictionary with an `interval`
/// integer and a `peers` byte string whose length is a multiple of six.
pub open spec fn tracker_spec(s: Seq<u8>) -> Option<(int, Seq<u8>)> {
    match crate::bencode::parse_value_at(s, 0) {
        Some((ValueModel::Dict(entries), end)) => {
            if end == s.len() {
                match (lookup(entries, "interval".spec_bytes()), lookup(
                    entries,
                    "peers".spec_bytes(),
                )) {
                    (Some(ValueModel::Int(interval)), Some(ValueModel::Bytes(peers))) => {
                        if peers.len() % 6 == 0 {
                            Some((interval, peers))
                        } else {
                            None
                        }
                    },
                    _ => None,
                }
            } else {
                None
            }
        },
        _ => None,
    }
}

/// Decodes a coordination-server response body.  Succeeds exactly when
/// the bytes denote a response: a `Parse` error comes exactly when they
/// are not one valid encoding, the other errors when the shape is
/// wrong.
pub fn parse_tracker_response(bytes: &Vec<u8>) -> (r: Result<TrackerResponse, TrackerError>)
    ensures
        r is Ok <==> tracker_spec(bytes@) is Some,
        (r matches Ok(t) ==> tracker_spec(bytes@) == Some((t.interval as int, t.peers@))
            && t.peers@.len() % 6 == 0),
        (r matches Err(e) ==> (e is Parse <==> !valid_encoding(bytes@))),
{
    let v = match decode(bytes) {
        Ok(v) => v,
        Err(e) => {
            proof {
                if crate::bencode::parse_value_at(bytes@, 0) is Some {
                    let p = crate::bencode::parse_value_at(bytes@, 0).unwrap();
                    if p.1 == bytes@.len() {
                        assert(crate::bencode::parse_value_at(bytes@, 0) == Some(
                            (p.0, bytes@.len() as int),
                        ));
                        assert(valid_encoding(bytes@));
                    }
                }
            }
            return Err(TrackerError::Parse(e));
        },
    };
    match &v {
        Value::Dict(entries) => {
            let ghost ments = vm_entries(entries@, 0);
            proof {
                assert(vm(v) == ValueModel::Dict(ments));
            }
            let ti = match crate::metadata::find_key(entries, "interval") {
                Some(ti) => ti,
                None => {
                    return Err(TrackerError::Interval);
                },
            };
            let interval = match &entries[ti].1 {
                Value::Int(x) => *x,
                _ => {
                    return Err(TrackerError::Interval);
                },
            };
            let pi = match crate::metadata::find_key(entries, "peers") {
                Some(pi) => pi,
                None => {
                    return Err(TrackerError::Peers);
                },
            };
            let peers = match &entries[pi].1 {
                Value::Bytes(pb) => copy_bytes(pb),
                _ => {
                    return Err(TrackerError::Peers);
                },
            };
            if peers.len() % 6 != 0 {
                return Err(TrackerError::PeersLength);
            }
            Ok(TrackerResponse { interval, peers })
        },
        _ => Err(TrackerError::NotADict),
    }
}

/// The text of one decoded peer record: dotted IPv4 octets, a colon,
/// and the big-endian 16-bit port.
pub open spec fn peer_text(b: Seq<u8>, k: int) -> Seq<u8> {
    dec_of(b[6 * k] as nat) + seq![46u8] + dec_of(b[6 * k + 1] as nat) + seq![46u8] + dec_of(
        b[6 * k + 2] as nat,
    ) + seq![46u8] + dec_of(b[6 * k + 3] as nat) + seq![58u8] + dec_of(
        (b[6 * k + 4] as nat) * 256 + (b[6 * k + 5] as nat),
    )
}

/// A decimal numeral is all ASCII.
proof fn lemma_dec_ascii(n: nat)
    ensures
        crate::text::all_ascii(dec_of(n)),
{
    crate::decimal::lemma_dec_of_canonical(n);
    assert forall|k: int| 0 <= k < dec_of(n).len() implies #[trigger] dec_of(n)[k] < 128 by {
        assert(crate::decimal::is_digit(dec_of(n)[k]));
    }
}

/// The text of a peer record is all ASCII.
proof fn lemma_peer_text_ascii(b: Seq<u8>, k: int)
    ensures
        crate::text::all_ascii(peer_text(b, k)),
{
    lemma_dec_ascii(b[6 * k] as nat);
    lemma_dec_ascii(b[6 * k + 1] as nat);
    lemma_dec_ascii(b[6 * k + 2] as nat);
    lemma_dec_ascii(b[6 * k + 3] as nat);
    lemma_dec_ascii((b[6 * k + 4] as nat) * 256 + (b[6 * k + 5] as nat));
    let t = peer_text(b, k);
    assert forall|m: int| 0 <= m < t.len() implies #[trigger] t[m] < 128 by {
        let p0 = dec_of(b[6 * k] as nat);
        let p1 = dec_of(b[6 * k + 1] as nat);
        let p2 = dec_of(b[6 * k + 2] as nat);
        let p3 = dec_of(b[6 * k + 3] as nat);
        let pp = dec_of((b[6 * k + 4] as nat) * 256 + (b[6 * k + 5] as nat));
        assert(t == p0 + seq![46u8] + p1 + seq![46u8] + p2 + seq![46u8] + p3 + seq![58u8] + pp);
    }
}

/// Decodes a compact peer list into `a.b.c.d:port` text, one string per
/// 6-byte record: four IPv4 octets in network order, then the
/// big-endian port.
pub fn parse_peers(bytes: &Vec<u8>) -> (r: Vec<String>)
    requires
        bytes@.len() % 6 == 0,
    ensures
        r@.len() == bytes@.len() / 6,
        forall|k: int| 0 <= k < r@.len() ==> (#[trigger] r@[k])@ == ascii_chars_of(
            peer_text(bytes@, k),
        ),
{
    let n = bytes.len() / 6;
    proof {
        vstd::arithmetic::div_mod::lemma_fundamental_div_mod(bytes@.len() as int, 6);
    }
    let mut r: Vec<String> = Vec::new();
    let mut k: usize = 0;
    while k < n
        invariant
            k <= n,
            n == bytes@.len() as int / 6,
            6 * n == bytes@.len(),
            bytes@.len() <= usize::MAX,
            r@.len() == k,
            forall|m: int| 0 <= m < k ==> (#[trigger] r@[m])@ == ascii_chars_of(
                peer_text(bytes@, m),
            ),
        decreases n - k,
    {
        let base = 6 * k;
        let mut line: Vec<u8> = Vec::new();
        crate::decimal::dec_into(bytes[base] as u64, &mut line);
        line.push(46);
        crate::decimal::dec_into(bytes[base + 1] as u64, &mut line);
        line.push(46);
        crate::decimal::dec_into(bytes[base + 2] as u64, &mut line);
        line.push(46);
        crate::decimal::dec_into(bytes[base + 3] as u64, &mut line);
        line.push(58);
        let port: u64 = (bytes[base + 4] as u64) * 256 + (bytes[base + 5] as u64);
        crate::decimal::dec_into(port, &mut line);
        proof {
            assert(line@ =~= peer_text(bytes@, k as int));
            lemma_peer_text_ascii(bytes@, k as int);
        }
        let s = utf8_lossy(&line);
        r.push(s);
        k = k + 1;
    }
    r
}

/// The announce request: the announce address with the query that the
/// coordination server expects.  The content identifier is
/// percent-encoded byte by byte — every byte, not only unprintable
/// ones — so the 20 raw bytes cross the wire exactly.  Uploaded and
/// downloaded counters are zero at the start of a download, the
/// remaining count is the whole length, and the compact flag asks for
/// 6-byte peer records.
pub open spec fn tracker_query_text(t: crate::metadata::TorrentModel, peer_id: Seq<u8>, port: int) -> Seq<u8> {
    t.announce + "?info_hash=".spec_bytes() + hex_sep(t.info_hash, "%".spec_bytes())
        + "&peer_id=".spec_bytes() + peer_id + "&port=".spec_bytes() + dec_of(port as nat)
        + "&uploaded=0&downloaded=0&left=".spec_bytes() + int_dec_of(t.length)
        + "&compact=1".spec_bytes()
}

/// Builds the announce request for a parsed metadata value, with the
/// caller's self-identifier and listening port.
pub fn tracker_request_url(t: &Torrent, peer_id: &str, port: u16) -> (r: String)
    ensures
        r@ == lossy_of(tracker_query_text(crate::metadata::tm(*t), peer_id.spec_bytes(), port as int)),
{
    let mut out: Vec<u8> = Vec::new();
    crate::encode::push_bytes(&mut out, &t.announce);
    crate::text::push_str_bytes(&mut out, "?info_hash=");
    crate::digest::hex_range_into(&mut out, &t.info_hash, 0, t.info_hash.len(), "%");
    proof {
        assert(t.info_hash@.subrange(0, t.info_hash@.len() as int) =~= t.info_hash@);
    }
    crate::text::push_str_bytes(&mut out, "&peer_id=");
    crate::text::push_str_bytes(&mut out, peer_id);
    crate::text::push_str_bytes(&mut out, "&port=");
    crate::decimal::dec_into(port as u64, &mut out);
    crate::text::push_str_bytes(&mut out, "&uploaded=0&downloaded=0&left=");
    crate::decimal::int_dec_into(t.info.length, &mut out);
    crate::text::push_str_bytes(&mut out, "&compact=1");
    proof {
        assert(out@ =~= tracker_query_text(
            crate::metadata::tm(*t),
            peer_id.spec_bytes(),
            port as int,
        ));
    }
    utf8_lossy(&out)
}

/// Why no peer list could be produced.
#[derive(Debug, Clone, Copy, PartialEq, Eq, Structural)]
pub enum PeerListError {
    Torrent(TorrentError),
    Tracker(TrackerError),
}

/// The peer list that a metadata file and a coordination-server
/// response body yield together: the response's compact records as
/// `a.b.c.d:port` text.  Succeeds exactly when the metadata parses and
/// the response denotes a peer list.
pub fn peers_for_torrent(torrent_bytes: &Vec<u8>, response_body: &Vec<u8>) -> (r: Result<
    Vec<String>,
    PeerListError,
>)
    ensures
        r is Ok <==> (torrent_spec(torrent_bytes@) is Some && tracker_spec(response_body@)
            is Some),
        (r matches Ok(peers) ==> {
            let pb = tracker_spec(response_body@).unwrap().1;
            &&& peers@.len() == pb.len() / 6
            &&& forall|k: int|
                0 <= k < peers@.len() ==> (#[trigger] peers@[k])@ == ascii_chars_of(
                    peer_text(pb, k),
                )
        }),
{
    let _t = match parse_torrent(torrent_bytes) {
        Ok(t) => t,
        Err(e) => {
            return Err(PeerListError::Torrent(e));
        },
    };
    let resp = match parse_tracker_response(response_body) {
        Ok(resp) => resp,
        Err(e) => {
            return Err(PeerListError::Tracker(e));
        },
    };
    Ok(parse_peers(&resp.peers))
}

} // verus!
