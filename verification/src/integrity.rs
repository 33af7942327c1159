//! Integrity of log records: a CRC-32 checksum per record, or a SHA-1 /
//! SHA-256 hash chain in which every record's tag binds all records before
//! it.  The hash and checksum primitives are outside libraries; their
//! results are named and everything built on top of them is verified.

use vstd::prelude::*;
use crate::encdec::{spec_dec, spec_hex, hex_encode, u64_to_dec};
use crypto::digest::Digest;

verus! {

broadcast use vstd::array::group_array_axioms;

/// What `crc::crc32::checksum_ieee` returns: the IEEE CRC-32 of the bytes,
/// a function of the bytes alone.
pub uninterp spec fn crc32_of(data: Seq<u8>) -> u32;

/// What a SHA-1 digest of the bytes is: a function of the bytes alone.
pub uninterp spec fn sha1_of(data: Seq<u8>) -> Seq<u8>;

/// What a SHA-256 digest of the bytes is: a function of the bytes alone.
pub uninterp spec fn sha256_of(data: Seq<u8>) -> Seq<u8>;

/// One step of the SHA-1 chain: the digest of the previous chain value
/// followed by the digest of the record's significant bytes.
pub open spec fn sha1_chain_of(prev: Seq<u8>, data: Seq<u8>) -> Seq<u8> {
    sha1_of(prev + sha1_of(data))
}

/// One step of the SHA-256 chain.
pub open spec fn sha256_chain_of(prev: Seq<u8>, data: Seq<u8>) -> Seq<u8> {
    sha256_of(prev + sha256_of(data))
}

/// Relies on `crc::crc32::checksum_ieee`: the IEEE CRC-32 of the bytes.
#[verifier::external_body]
fn crc32_ieee(data: &[u8]) -> (r: u32)
    ensures
        r == crc32_of(data@),
{
    crc::crc32::checksum_ieee(data)
}

/// Relies on `crypto::sha1::Sha1` (input, then result): the 20-byte SHA-1
/// digest of the input bytes.
#[verifier::external_body]
fn sha1_digest(data: &[u8]) -> (r: [u8; 20])
    ensures
        r@ == sha1_of(data@) && r@.len() == 20,
{
    let mut hasher = crypto::sha1::Sha1::new();
    hasher.input(data);
    let mut out = [0u8; 20];
    hasher.result(&mut out);
    out
}

/// Relies on `crypto::sha2::Sha256` (input, then result): the 32-byte
/// SHA-256 digest of the input bytes.
#[verifier::external_body]
fn sha256_digest(data: &[u8]) -> (r: [u8; 32])
    ensures
        r@ == sha256_of(data@) && r@.len() == 32,
{
    let mut hasher = crypto::sha2::Sha256::new();
    hasher.input(data);
    let mut out = [0u8; 32];
    hasher.result(&mut out);
    out
}

/// Hash of the current record for the SHA-1 chain: the digest of the
/// previous chain hash concatenated with the digest of the record's data.
pub fn blockchain_sha1(prev_hash: &[u8; 20], data: &[u8]) -> (r: [u8; 20])
    ensures
        r@ == sha1_chain_of(prev_hash@, data@),
{
    let inner = sha1_digest(data);
    let mut buf: Vec<u8> = Vec::new();
    buf.extend_from_slice(prev_hash.as_slice());
    buf.extend_from_slice(inner.as_slice());
    proof {
        assert(buf@ =~= prev_hash@ + sha1_of(data@));
    }
    sha1_digest(buf.as_slice())
}

/// Hash of the current record for the SHA-256 chain.
pub fn blockchain_sha256(prev_hash: &[u8; 32], data: &[u8]) -> (r: [u8; 32])
    ensures
        r@ == sha256_chain_of(prev_hash@, data@),
{
    let inner = sha256_digest(data);
    let mut buf: Vec<u8> = Vec::new();
    buf.extend_from_slice(prev_hash.as_slice());
    buf.extend_from_slice(inner.as_slice());
    proof {
        assert(buf@ =~= prev_hash@ + sha256_of(data@));
    }
    sha256_digest(buf.as_slice())
}

/// Method of controlling the integrity of the records in a log file.
#[derive(Clone, Copy)]
pub enum Integrity {
    /// CRC-32 (IEEE) checksum of each record's significant bytes.
    Crc32,
    /// SHA-1 hash chain; the field is the running chain value, seeded by
    /// the caller and advanced after every record read or written.
    Sha1Chain([u8; 20]),
    /// SHA-256 hash chain; the field is the running chain value.
    Sha256Chain([u8; 32]),
}

/// The mathematical value of an [`Integrity`] state.
pub enum IntegritySpec {
    Crc32,
    Sha1Chain(Seq<u8>),
    Sha256Chain(Seq<u8>),
}

impl View for Integrity {
    type V = IntegritySpec;

    open spec fn view(&self) -> IntegritySpec {
        match self {
            Integrity::Crc32 => IntegritySpec::Crc32,
            Integrity::Sha1Chain(seed) => IntegritySpec::Sha1Chain(seed@),
            Integrity::Sha256Chain(seed) => IntegritySpec::Sha256Chain(seed@),
        }
    }
}

/// The view of an optional integrity state.
pub open spec fn oi_view(oi: Option<Integrity>) -> Option<IntegritySpec> {
    match oi {
        Some(i) => Some(i@),
        None => None,
    }
}

/// The text tag of a record whose significant bytes are `sig`: the decimal
/// CRC-32, or the lower-case hex of the advanced chain value.
pub open spec fn spec_text_tag(i: IntegritySpec, sig: Seq<u8>) -> Seq<u8> {
    match i {
        IntegritySpec::Crc32 => spec_dec(crc32_of(sig) as int),
        IntegritySpec::Sha1Chain(prev) => spec_hex(sha1_chain_of(prev, sig)),
        IntegritySpec::Sha256Chain(prev) => spec_hex(sha256_chain_of(prev, sig)),
    }
}

/// Little-endian bytes of a 32-bit checksum.
pub open spec fn spec_u32_le(n: u32) -> Seq<u8> {
    seq![
        (n % 256) as u8,
        ((n / 256) % 256) as u8,
        ((n / 65536) % 256) as u8,
        ((n / 16777216) % 256) as u8,
    ]
}

/// The first `w` bytes of `s`, zero-filled beyond its end.  A digest
/// already has the width of its algorithm, so on digests this is the
/// identity; it makes the width of a tag plain in specifications.
pub open spec fn fix_len(s: Seq<u8>, w: int) -> Seq<u8> {
    Seq::new(w as nat, |i: int| if 0 <= i < s.len() { s[i] } else { 0u8 })
}

/// The binary tag of a record whose significant bytes are `sig`: the
/// little-endian CRC-32, or the raw bytes of the advanced chain value.
pub open spec fn spec_bin_tag(i: IntegritySpec, sig: Seq<u8>) -> Seq<u8> {
    match i {
        IntegritySpec::Crc32 => spec_u32_le(crc32_of(sig)),
        IntegritySpec::Sha1Chain(prev) => fix_len(sha1_chain_of(prev, sig), 20),
        IntegritySpec::Sha256Chain(prev) => fix_len(sha256_chain_of(prev, sig), 32),
    }
}

/// The width of a binary tag.
pub open spec fn tag_len(i: IntegritySpec) -> int {
    match i {
        IntegritySpec::Crc32 => 4,
        IntegritySpec::Sha1Chain(_) => 20,
        IntegritySpec::Sha256Chain(_) => 32,
    }
}

/// A binary tag has the width of its algorithm.
pub proof fn lemma_bin_tag_len(i: IntegritySpec, sig: Seq<u8>)
    ensures
        spec_bin_tag(i, sig).len() == tag_len(i),
{
}

/// The integrity state after a record whose significant bytes are `sig`.
pub open spec fn spec_step(i: IntegritySpec, sig: Seq<u8>) -> IntegritySpec {
    match i {
        IntegritySpec::Crc32 => IntegritySpec::Crc32,
        IntegritySpec::Sha1Chain(prev) => IntegritySpec::Sha1Chain(sha1_chain_of(prev, sig)),
        IntegritySpec::Sha256Chain(prev) => IntegritySpec::Sha256Chain(sha256_chain_of(prev, sig)),
    }
}

/// The optional integrity state after a record.
pub open spec fn spec_step_opt(oi: Option<IntegritySpec>, sig: Seq<u8>) -> Option<IntegritySpec> {
    match oi {
        Some(i) => Some(spec_step(i, sig)),
        None => None,
    }
}

/// Computes the text tag of a record and advances the chain state.
pub fn make_text_tag(integrity: &mut Integrity, sig: &[u8]) -> (r: Vec<u8>)
    ensures
        r@ == spec_text_tag(old(integrity)@, sig@),
        final(integrity)@ == spec_step(old(integrity)@, sig@),
{
    match integrity {
        Integrity::Crc32 => u64_to_dec(crc32_ieee(sig) as u64),
        Integrity::Sha1Chain(prev) => {
            let h = blockchain_sha1(prev, sig);
            *prev = h;
            hex_encode(h.as_slice())
        },
        Integrity::Sha256Chain(prev) => {
            let h = blockchain_sha256(prev, sig);
            *prev = h;
            hex_encode(h.as_slice())
        },
    }
}

/// Computes the binary tag of a record and advances the chain state.
pub fn make_bin_tag(integrity: &mut Integrity, sig: &[u8]) -> (r: Vec<u8>)
    ensures
        r@ == spec_bin_tag(old(integrity)@, sig@),
        final(integrity)@ == spec_step(old(integrity)@, sig@),
{
    match integrity {
        Integrity::Crc32 => {
            let crc = crc32_ieee(sig);
            let mut out: Vec<u8> = Vec::new();
            out.push((crc % 256) as u8);
            out.push(((crc / 256) % 256) as u8);
            out.push(((crc / 65536) % 256) as u8);
            out.push(((crc / 16777216) % 256) as u8);
            proof {
                assert(out@ =~= spec_u32_le(crc));
            }
            out
        },
        Integrity::Sha1Chain(prev) => {
            let h = blockchain_sha1(prev, sig);
            *prev = h;
            let mut out: Vec<u8> = Vec::new();
            out.extend_from_slice(h.as_slice());
            proof {
                assert(out@ =~= fix_len(sha1_chain_of(old(integrity)@->Sha1Chain_0, sig@), 20));
            }
            out
        },
        Integrity::Sha256Chain(prev) => {
            let h = blockchain_sha256(prev, sig);
            *prev = h;
            let mut out: Vec<u8> = Vec::new();
            out.extend_from_slice(h.as_slice());
            proof {
                assert(out@ =~= fix_len(sha256_chain_of(old(integrity)@->Sha256Chain_0, sig@), 32));
            }
            out
        },
    }
}

} // verus!
