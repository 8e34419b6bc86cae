//! The metadata model: a typed projection of a decoded top-level value
//! into the schema the downloader needs, and the content identifier that
//! is derived from it.
//!
//! The content identifier is the SHA-1 digest of the `info` value's
//! encoding in its original stored order, byte for byte as it appeared
//! in the source — never of a re-sorted form, because two different
//! encodings of logically equal data hash differently.
use vstd::prelude::*;
use vstd::string::StringSliceAdditionalSpecFns;

use crate::bencode::{
    enc, lemma_vm_entries_index, lemma_vm_entries_len, parse_value_at, valid_encoding, vm,
    vm_entries, ParseError, Value, ValueModel,
};
use crate::decimal::int_dec_of;
use crate::decode::decode;
use crate::digest::{hex_sep, sha1_digest, sha1_of};
use crate::encode::encode_raw;
use crate::text::{copy_bytes, key_is, lossy_of, utf8_lossy};

verus! {

/// A well-formed encoding whose shape does not match the metadata
/// schema: a required field is absent or of the wrong variant, or the
/// piece geometry is inconsistent.
#[derive(Debug, Clone, Copy, PartialEq, Eq, Structural)]
pub enum SchemaError {
    NotADict,
    Announce,
    CreatedBy,
    Info,
    Length,
    Name,
    PieceLength,
    Pieces,
    Geometry,
}

/// Why a metadata file was rejected.
#[derive(Debug, Clone, Copy, PartialEq, Eq, Structural)]
pub enum TorrentError {
    Parse(ParseError),
    Schema(SchemaError),
}

/// The `info` block: total length, suggested name, piece length, and
/// the concatenated 20-byte piece digests.
#[derive(Debug, PartialEq, Eq)]
pub struct Info {
    pub length: i64,
    pub name: Vec<u8>,
    pub piece_length: i64,
    pub pieces: Vec<u8>,
}

/// A parsed metadata file.
#[derive(Debug, PartialEq, Eq)]
pub struct Torrent {
    pub announce: Vec<u8>,
    pub created_by: Option<Vec<u8>>,
    pub info: Info,
    pub info_hash: Vec<u8>,
}

/// The mathematical shadow of `Torrent`.
pub struct TorrentModel {
    pub announce: Seq<u8>,
    pub created_by: Option<Seq<u8>>,
    pub length: int,
    pub name: Seq<u8>,
    pub piece_length: int,
    pub pieces: Seq<u8>,
    pub info_hash: Seq<u8>,
}

/// The model of a parsed metadata value.
pub open spec fn tm(t: Torrent) -> TorrentModel {
    TorrentModel {
        announce: t.announce@,
        created_by: match t.created_by {
            Some(b) => Some(b@),
            None => None,
        },
        length: t.info.length as int,
        name: t.info.name@,
        piece_length: t.info.piece_length as int,
        pieces: t.info.pieces@,
        info_hash: t.info_hash@,
    }
}

/// First value stored under `key`, looking from index `i` on.
pub open spec fn lookup_from(
    entries: Seq<(Seq<u8>, ValueModel)>,
    key: Seq<u8>,
    i: int,
) -> Option<ValueModel>
    decreases entries.len() - i,
{
    if !(0 <= i < entries.len()) {
        None
    } else if entries[i].0 == key {
        Some(entries[i].1)
    } else {
        lookup_from(entries, key, i + 1)
    }
}

/// First value stored under `key` in a dictionary's entries.
pub open spec fn lookup(entries: Seq<(Seq<u8>, ValueModel)>, key: Seq<u8>) -> Option<ValueModel> {
    lookup_from(entries, key, 0)
}

/// The number of pieces a file of `length` has at `piece_length` per
/// piece: the quotient rounded up.
pub open spec fn num_pieces_of(length: int, piece_length: int) -> int {
    (length + piece_length - 1) / piece_length
}

/// What the `info` dictionary must hold: a non-negative integer
/// `length`, a byte-string `name`, a positive integer `piece length`,
/// and a `pieces` byte string of exactly one 20-byte digest per piece.
pub open spec fn info_spec(ie: Seq<(Seq<u8>, ValueModel)>) -> Option<(int, Seq<u8>, int, Seq<u8>)> {
    match (
        lookup(ie, "length".spec_bytes()),
        lookup(ie, "name".spec_bytes()),
        lookup(ie, "piece length".spec_bytes()),
        lookup(ie, "pieces".spec_bytes()),
    ) {
        (
            Some(ValueModel::Int(length)),
            Some(ValueModel::Bytes(name)),
            Some(ValueModel::Int(piece_length)),
            Some(ValueModel::Bytes(pieces)),
        ) => {
            if length >= 0 && piece_length >= 1 && pieces.len() % 20 == 0 && num_pieces_of(
                length,
                piece_length,
            ) == pieces.len() / 20 {
                Some((length, name, piece_length, pieces))
            } else {
                None
            }
        },
        _ => None,
    }
}

/// The metadata that a byte input denotes, if it is one well-formed
/// encoding of a dictionary matching the schema: `announce` a byte
/// string, optional `created by` a byte string, `info` a dictionary
/// satisfying `info_spec`.  The content identifier is the digest of the
/// `info` value's encoding in stored order.
pub open spec fn torrent_spec(s: Seq<u8>) -> Option<TorrentModel> {
    match parse_value_at(s, 0) {
        Some((ValueModel::Dict(entries), end)) => {
            if end == s.len() {
                match (lookup(entries, "announce".spec_bytes()), lookup(
                    entries,
                    "info".spec_bytes(),
                )) {
                    (Some(ValueModel::Bytes(announce)), Some(ValueModel::Dict(ie))) => {
                        let cb = lookup(entries, "created by".spec_bytes());
                        if cb is Some && !(cb.unwrap() is Bytes) {
                            None
                        } else {
                            match info_spec(ie) {
                                Some((length, name, piece_length, pieces)) => Some(
                                    TorrentModel {
                                        announce,
                                        created_by: match cb {
                                            Some(ValueModel::Bytes(b)) => Some(b),
                                            _ => None,
                                        },
                                        length,
                                        name,
                                        piece_length,
                                        pieces,
                                        info_hash: sha1_of(enc(ValueModel::Dict(ie))),
                                    },
                                ),
                                None => None,
                            }
                        }
                    },
                    _ => None,
                }
            } else {
                None
            }
        },
        _ => None,
    }
}

impl Torrent {
    /// The metadata invariants: consistent piece geometry and a 20-byte
    /// content identifier.
    pub open spec fn wf(self) -> bool {
        &&& self.info.length >= 0
        &&& self.info.piece_length >= 1
        &&& self.info.pieces@.len() % 20 == 0
        &&& num_pieces_of(self.info.length as int, self.info.piece_length as int)
            == self.info.pieces@.len() as int / 20
        &&& self.info_hash@.len() == 20
    }

    /// How many pieces the file has.
    pub open spec fn num_pieces(self) -> int {
        self.info.pieces@.len() as int / 20
    }
}

/// Index of the first entry whose key is the bytes of `key`.
pub(crate) fn find_key(entries: &Vec<(Vec<u8>, Value)>, key: &str) -> (r: Option<usize>)
    ensures
        (match r {
            Some(j) => j < entries@.len() && lookup(vm_entries(entries@, 0), key.spec_bytes())
                == Some(vm(entries@[j as int].1)),
            None => lookup(vm_entries(entries@, 0), key.spec_bytes()) is None,
        }),
{
    let ghost ments = vm_entries(entries@, 0);
    let ghost keyb = key.spec_bytes();
    proof {
        lemma_vm_entries_len(entries@, 0);
    }
    let mut j: usize = 0;
    while j < entries.len()
        invariant
            j <= entries@.len(),
            ments == vm_entries(entries@, 0),
            ments.len() == entries@.len(),
            keyb == key.spec_bytes(),
            lookup_from(ments, keyb, 0) == lookup_from(ments, keyb, j as int),
        decreases entries@.len() - j,
    {
        proof {
            lemma_vm_entries_index(entries@, 0, j as int);
            assert(ments[j as int] == (entries@[j as int].0@, vm(entries@[j as int].1)));
        }
        if key_is(&entries[j].0, key) {
            return Some(j);
        }
        j = j + 1;
    }
    None
}

/// Parses a metadata file: decodes the bytes and projects the value
/// into the typed schema.  Succeeds exactly when the input denotes a
/// metadata value; a `Parse` error comes exactly when the bytes are not
/// one valid encoding, a `Schema` error when they are but the shape is
/// wrong.
pub fn parse_torrent(bytes: &Vec<u8>) -> (r: Result<Torrent, TorrentError>)
    ensures
        r is Ok <==> torrent_spec(bytes@) is Some,
        (r matches Ok(t) ==> torrent_spec(bytes@) == Some(tm(t)) && t.wf()),
        (r matches Err(e) ==> (e is Parse <==> !valid_encoding(bytes@))),
{
    let v = match decode(bytes) {
        Ok(v) => v,
        Err(e) => {
            proof {
                if parse_value_at(bytes@, 0) is Some {
                    let p = parse_value_at(bytes@, 0).unwrap();
                    if p.1 == bytes@.len() {
                        assert(parse_value_at(bytes@, 0) == Some((p.0, bytes@.len() as int)));
                        assert(valid_encoding(bytes@));
                    }
                }
            }
            return Err(TorrentError::Parse(e));
        },
    };
    match &v {
        Value::Dict(entries) => {
            let ghost ments = vm_entries(entries@, 0);
            proof {
                assert(vm(v) == ValueModel::Dict(ments));
            }
            let ai = match find_key(entries, "announce") {
                Some(ai) => ai,
                None => {
                    return Err(TorrentError::Schema(SchemaError::Announce));
                },
            };
            let announce = match &entries[ai].1 {
                Value::Bytes(ab) => copy_bytes(ab),
                _ => {
                    return Err(TorrentError::Schema(SchemaError::Announce));
                },
            };
            let ii = match find_key(entries, "info") {
                Some(ii) => ii,
                None => {
                    return Err(TorrentError::Schema(SchemaError::Info));
                },
            };
            let created_by = match find_key(entries, "created by") {
                Some(ci) => match &entries[ci].1 {
                    Value::Bytes(cb) => Some(copy_bytes(cb)),
                    _ => {
                        return Err(TorrentError::Schema(SchemaError::CreatedBy));
                    },
                },
                None => None,
            };
            match &entries[ii].1 {
                Value::Dict(ie) => {
                    let ghost iem = vm_entries(ie@, 0);
                    proof {
                        assert(vm(entries@[ii as int].1) == ValueModel::Dict(iem));
                    }
                    let li = match find_key(ie, "length") {
                        Some(li) => li,
                        None => {
                            return Err(TorrentError::Schema(SchemaError::Length));
                        },
                    };
                    let length = match &ie[li].1 {
                        Value::Int(x) => *x,
                        _ => {
                            return Err(TorrentError::Schema(SchemaError::Length));
                        },
                    };
                    let ni = match find_key(ie, "name") {
                        Some(ni) => ni,
                        None => {
                            return Err(TorrentError::Schema(SchemaError::Name));
                        },
                    };
                    let name = match &ie[ni].1 {
                        Value::Bytes(nb) => copy_bytes(nb),
                        _ => {
                            return Err(TorrentError::Schema(SchemaError::Name));
                        },
                    };
                    let pli = match find_key(ie, "piece length") {
                        Some(pli) => pli,
                        None => {
                            return Err(TorrentError::Schema(SchemaError::PieceLength));
                        },
                    };
                    let piece_length = match &ie[pli].1 {
                        Value::Int(x) => *x,
                        _ => {
                            return Err(TorrentError::Schema(SchemaError::PieceLength));
                        },
                    };
                    let pi = match find_key(ie, "pieces") {
                        Some(pi) => pi,
                        None => {
                            return Err(TorrentError::Schema(SchemaError::Pieces));
                        },
                    };
                    let pieces = match &ie[pi].1 {
                        Value::Bytes(pb) => copy_bytes(pb),
                        _ => {
                            return Err(TorrentError::Schema(SchemaError::Pieces));
                        },
                    };
                    if length < 0 || piece_length < 1 {
                        return Err(TorrentError::Schema(SchemaError::Geometry));
                    }
                    if pieces.len() % 20 != 0 {
                        return Err(TorrentError::Schema(SchemaError::Geometry));
                    }
                    let expected: u128 = ((length as u128) + (piece_length as u128) - 1) / (
                    piece_length as u128);
                    if expected != (pieces.len() / 20) as u128 {
                        return Err(TorrentError::Schema(SchemaError::Geometry));
                    }
                    let enc_info = encode_raw(&entries[ii].1);
                    let info_hash = sha1_digest(&enc_info);
                    let t = Torrent {
                        announce,
                        created_by,
                        info: Info { length, name, piece_length, pieces },
                        info_hash,
                    };
                    proof {
                        assert(torrent_spec(bytes@) == Some(tm(t)));
                    }
                    Ok(t)
                },
                _ => Err(TorrentError::Schema(SchemaError::Info)),
            }
        },
        _ => Err(TorrentError::Schema(SchemaError::NotADict)),
    }
}

/// A piece index at or past the number of pieces.
#[derive(Debug, Clone, Copy, PartialEq, Eq, Structural)]
pub struct PieceIndexError {
    pub index: usize,
}

/// The byte size of piece `index`: the piece length for every piece but
/// the last, and what remains of the file for the last.
pub open spec fn spec_piece_size(t: Torrent, index: int) -> int {
    if index < t.num_pieces() - 1 {
        t.info.piece_length as int
    } else {
        t.info.length - t.info.piece_length * (t.num_pieces() - 1)
    }
}

impl Torrent {
    /// The size of piece `index`; fails exactly when `index` is past
    /// the last piece.  Every piece size is between one byte and the
    /// piece length.
    pub fn piece_size(&self, index: usize) -> (r: Result<i64, PieceIndexError>)
        requires
            self.wf(),
        ensures
            r is Ok <==> (index as int) < self.num_pieces(),
            (r matches Ok(sz) ==> sz as int == spec_piece_size(*self, index as int) && 1 <= sz
                <= self.info.piece_length),
    {
        let n = self.info.pieces.len() / 20;
        if index >= n {
            return Err(PieceIndexError { index });
        }
        proof {
            lemma_piece_geometry(*self);
        }
        if index + 1 < n {
            Ok(self.info.piece_length)
        } else {
            let last = self.info.length - self.info.piece_length * ((n as i64) - 1);
            Ok(last)
        }
    }

    /// The expected 20-byte digest of piece `index`, sliced out of the
    /// flat digest buffer; fails exactly when `index` is past the last
    /// piece.
    pub fn piece_digest(&self, index: usize) -> (r: Result<Vec<u8>, PieceIndexError>)
        requires
            self.wf(),
        ensures
            r is Ok <==> (index as int) < self.num_pieces(),
            (r matches Ok(d) ==> d@ == self.info.pieces@.subrange(
                20 * index as int,
                20 * index as int + 20,
            )),
    {
        let n = self.info.pieces.len() / 20;
        if index >= n {
            return Err(PieceIndexError { index });
        }
        proof {
            vstd::arithmetic::div_mod::lemma_fundamental_div_mod(
                self.info.pieces@.len() as int,
                20,
            );
        }
        let start = 20 * index;
        let end = start + 20;
        let mut d: Vec<u8> = Vec::new();
        let mut t = start;
        while t < end
            invariant
                start == 20 * index,
                end == start + 20,
                end <= self.info.pieces@.len(),
                start <= t <= end,
                d@ == self.info.pieces@.subrange(start as int, t as int),
            decreases end - t,
        {
            d.push(self.info.pieces[t]);
            proof {
                assert(d@ =~= self.info.pieces@.subrange(start as int, t + 1 as int));
            }
            t = t + 1;
        }
        Ok(d)
    }

    /// The 20-byte content identifier: the digest of the `info` value's
    /// encoding exactly as it stood in the source bytes.
    pub fn content_identifier(&self) -> (r: &Vec<u8>)
        ensures
            r@ == self.info_hash@,
    {
        &self.info_hash
    }

    /// The content identifier rendered as lowercase hexadecimal, with
    /// `sep` before every byte (empty for plain hex, `"%"` for the
    /// byte-by-byte percent-encoded form the tracker query uses).
    pub fn formatted_info_hash(&self, sep: &str) -> (r: String)
        ensures
            r@ == lossy_of(hex_sep(self.info_hash@, sep.spec_bytes())),
            vstd::string::is_ascii(sep) ==> r@ == crate::text::ascii_chars_of(
                hex_sep(self.info_hash@, sep.spec_bytes()),
            ),
    {
        let mut out: Vec<u8> = Vec::new();
        crate::digest::hex_range_into(&mut out, &self.info_hash, 0, self.info_hash.len(), sep);
        proof {
            assert(self.info_hash@.subrange(0, self.info_hash@.len() as int) =~= self.info_hash@);
            assert(Seq::<u8>::empty() + hex_sep(self.info_hash@, sep.spec_bytes()) =~= hex_sep(
                self.info_hash@,
                sep.spec_bytes(),
            ));
            if vstd::string::is_ascii(sep) {
                crate::text::lemma_ascii_str_bytes(sep);
                crate::digest::lemma_hex_ascii(self.info_hash@, sep.spec_bytes(), 0);
            }
        }
        utf8_lossy(&out)
    }
}

/// In a well-formed metadata value the last piece's span fits between
/// one byte and the piece length.
pub proof fn lemma_piece_geometry(t: Torrent)
    requires
        t.wf(),
        t.num_pieces() >= 1,
    ensures
        1 <= t.info.length - t.info.piece_length * (t.num_pieces() - 1) <= t.info.piece_length,
{
    let length = t.info.length as int;
    let pl = t.info.piece_length as int;
    let n = t.num_pieces();
    vstd::arithmetic::div_mod::lemma_fundamental_div_mod(length + pl - 1, pl);
    let rem = (length + pl - 1) % pl;
    assert(length + pl - 1 == pl * n + rem);
    assert(pl * (n - 1) == pl * n - pl) by (nonlinear_arith);
    assert(t.info.piece_length * (t.num_pieces() - 1) == pl * (n - 1));
}

/// One hexadecimal line of 40 digits per 20-byte digest, joined by
/// newlines, covering `pieces` from chunk `c` on.
pub open spec fn piece_lines_from(pieces: Seq<u8>, c: int) -> Seq<u8>
    decreases pieces.len() - 20 * c,
{
    if c >= 0 && 20 * c + 20 <= pieces.len() {
        let line = hex_sep(pieces.subrange(20 * c, 20 * c + 20), Seq::empty());
        if 20 * c + 40 <= pieces.len() {
            line + seq![10u8] + piece_lines_from(pieces, c + 1)
        } else {
            line
        }
    } else {
        Seq::empty()
    }
}

/// The full human-readable report on a metadata file.
pub open spec fn torrent_info_text(t: TorrentModel) -> Seq<u8> {
    "Tracker URL: ".spec_bytes() + t.announce + seq![10u8] + "Length: ".spec_bytes() + int_dec_of(
        t.length,
    ) + seq![10u8] + "Info Hash: ".spec_bytes() + hex_sep(t.info_hash, Seq::empty()) + seq![10u8]
        + "Piece Length: ".spec_bytes() + int_dec_of(t.piece_length) + seq![10u8]
        + "Piece Hashes:".spec_bytes() + piece_lines_from(t.pieces, 0)
}

/// Content identifier derivation is deterministic: the same metadata
/// bytes always denote the same 20-byte identifier.
pub proof fn lemma_content_identifier_deterministic(
    bytes: Seq<u8>,
    t1: TorrentModel,
    t2: TorrentModel,
)
    requires
        torrent_spec(bytes) == Some(t1),
        torrent_spec(bytes) == Some(t2),
    ensures
        t1.info_hash == t2.info_hash,
{
}

/// Parses a metadata file and reports its announce address, length,
/// content identifier, piece length and piece digests as text, exactly
/// when the bytes denote a metadata value.
pub fn torrent_info(bytes: &Vec<u8>) -> (r: Result<String, TorrentError>)
    ensures
        r is Ok <==> torrent_spec(bytes@) is Some,
        (r matches Ok(s) ==> s@ == lossy_of(torrent_info_text(torrent_spec(bytes@).unwrap()))),
{
    let t = match parse_torrent(bytes) {
        Ok(t) => t,
        Err(e) => {
            return Err(e);
        },
    };
    let mut out: Vec<u8> = Vec::new();
    crate::text::push_str_bytes(&mut out, "Tracker URL: ");
    crate::encode::push_bytes(&mut out, &t.announce);
    out.push(10);
    crate::text::push_str_bytes(&mut out, "Length: ");
    crate::decimal::int_dec_into(t.info.length, &mut out);
    out.push(10);
    crate::text::push_str_bytes(&mut out, "Info Hash: ");
    crate::digest::hex_range_into(&mut out, &t.info_hash, 0, t.info_hash.len(), "");
    proof {
        assert(t.info_hash@.subrange(0, t.info_hash@.len() as int) =~= t.info_hash@);
        reveal_strlit("");
        assert(""@.len() == 0);
        assert("".spec_bytes() =~= Seq::<u8>::empty());
    }
    out.push(10);
    crate::text::push_str_bytes(&mut out, "Piece Length: ");
    crate::decimal::int_dec_into(t.info.piece_length, &mut out);
    out.push(10);
    crate::text::push_str_bytes(&mut out, "Piece Hashes:");
    let ghost header = out@;
    let npieces = t.info.pieces.len() / 20;
    proof {
        vstd::arithmetic::div_mod::lemma_fundamental_div_mod(t.info.pieces@.len() as int, 20);
    }
    let mut c: usize = 0;
    while c < npieces
        invariant
            c <= npieces,
            npieces == t.info.pieces@.len() as int / 20,
            20 * npieces == t.info.pieces@.len(),
            t.info.pieces@.len() <= usize::MAX,
            out@ + piece_lines_from(t.info.pieces@, c as int) == header + piece_lines_from(
                t.info.pieces@,
                0,
            ),
        decreases npieces - c,
    {
        let start = 20 * c;
        crate::digest::hex_range_into(&mut out, &t.info.pieces, start, start + 20, "");
        proof {
            reveal_strlit("");
        assert(""@.len() == 0);
        assert("".spec_bytes() =~= Seq::<u8>::empty());
        }
        if c + 1 < npieces {
            out.push(10);
        }
        proof {
            assert(out@ + piece_lines_from(t.info.pieces@, c + 1 as int) =~= header
                + piece_lines_from(t.info.pieces@, 0));
        }
        c = c + 1;
    }
    proof {
        assert(piece_lines_from(t.info.pieces@, npieces as int) == Seq::<u8>::empty());
        assert(out@ =~= header + piece_lines_from(t.info.pieces@, 0));
        assert(out@ =~= torrent_info_text(torrent_spec(bytes@).unwrap()));
    }
    Ok(utf8_lossy(&out))
}

} // verus!
