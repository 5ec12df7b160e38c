use vstd::prelude::*;
use crypto::digest::Digest;
use crypto::sha1::Sha1;

verus! {

/// A DHT node: host and port.
#[derive(Debug, PartialEq)]
pub struct Node(pub String, pub i64);

/// A file of a multi-file torrent.
#[derive(Debug, PartialEq)]
pub struct File {
    pub path: Vec<String>,
    pub length: i64,
    pub md5sum: Option<String>,
}

/// The `info` dictionary of a torrent.
#[derive(Default, Debug, PartialEq)]
pub struct Info {
    pub name: String,
    pub pieces: Vec<u8>,
    pub piece_length: i64,
    pub md5sum: Option<String>,
    pub length: Option<i64>,
    pub files: Option<Vec<File>>,
    pub private: Option<u8>,
    pub path: Option<Vec<String>>,
    pub root_hash: Option<String>,
}

/// A torrent's metadata, with the SHA-1 hash of its bencoded `info`
/// dictionary.
#[derive(Default, Debug, PartialEq)]
pub struct TorrentMetadata {
    pub info: Info,
    pub announce: Option<String>,
    pub nodes: Option<Vec<Node>>,
    pub encoding: Option<String>,
    pub httpseeds: Option<Vec<String>>,
    pub announce_list: Option<Vec<Vec<String>>>,
    pub creation_date: Option<i64>,
    pub comment: Option<String>,
    pub created_by: Option<String>,
    pub info_hash: Vec<u8>,
}

/// The SHA-1 digest of `data`.
pub uninterp spec fn sha1(data: Seq<u8>) -> Seq<u8>;

/// Computes the SHA-1 digest of `data` with `crypto::sha1::Sha1`
/// (`new`, `input`, then `result` into a buffer of `output_bytes()` bytes).
/// Claimed: the digest depends on `data` alone, and is 20 bytes long
/// (`output_bits` is 160).
#[verifier::external_body]
fn sha1_digest(data: &[u8]) -> (digest: Vec<u8>)
    ensures
        digest@ == sha1(data@),
        digest@.len() == 20,
{
    let mut hasher = Sha1::new();
    hasher.input(data);
    let mut digest: Vec<u8> = vec![0; hasher.output_bytes()];
    hasher.result(&mut digest);
    digest
}

/// The info hash of a torrent: the SHA-1 digest of its bencoded `info`
/// dictionary.
pub fn create_info_hash(info_raw: &[u8]) -> (hash: Vec<u8>)
    ensures
        hash@ == sha1(info_raw@),
        hash@.len() == 20,
{
    sha1_digest(info_raw)
}

} // verus!
