//! Binary record codec: each record is a length-prefixed block holding an
//! opcode byte, the encoded payload and, when integrity is configured,
//! trailing tag bytes.
//!
//! The length prefix is one class byte whose two low bits select the
//! width of the length field (1, 2, 4 or 8 bytes, little endian); the
//! other six bits are reserved and must be zero.  A zero block length is
//! invalid.

use vstd::prelude::*;
use crate::encdec::subvec;
use crate::integrity::{
    Integrity, IntegritySpec, oi_view, spec_bin_tag, spec_step, spec_step_opt, tag_len,
    make_bin_tag, lemma_bin_tag_len,
};
use crate::format::{RawRecord, RawRec, recs_view, rec_payload, LoadFileError, IntegrityError};

verus! {

/// 256 to the power `w`.
pub open spec fn pow256(w: int) -> int
    decreases w,
{
    if w <= 0 {
        1
    } else {
        256 * pow256(w - 1)
    }
}

/// The little-endian bytes of `n`, `w` bytes wide.
pub open spec fn spec_le_bytes(n: int, w: int) -> Seq<u8>
    decreases w,
{
    if w <= 0 {
        Seq::empty()
    } else {
        seq![(n % 256) as u8] + spec_le_bytes(n / 256, w - 1)
    }
}

/// The value of a little-endian byte string.
pub open spec fn spec_le_val(s: Seq<u8>) -> int
    decreases s.len(),
{
    if s.len() == 0 {
        0
    } else {
        s[0] + 256 * spec_le_val(s.skip(1))
    }
}

pub proof fn lemma_le_val_bound(s: Seq<u8>)
    ensures
        0 <= spec_le_val(s) < pow256(s.len() as int),
    decreases s.len(),
{
    if s.len() == 0 {
    } else {
        lemma_le_val_bound(s.skip(1));
        assert(spec_le_val(s) == s[0] + 256 * spec_le_val(s.skip(1)));
        assert(256 * spec_le_val(s.skip(1)) <= 256 * (pow256(s.len() - 1) - 1)) by (
        nonlinear_arith)
            requires
                spec_le_val(s.skip(1)) <= pow256(s.len() - 1) - 1,
        {}
        assert(256 * spec_le_val(s.skip(1)) >= 0) by (nonlinear_arith)
            requires
                spec_le_val(s.skip(1)) >= 0,
        {}
    }
}

/// Writing `n` in `w` little-endian bytes and reading it back yields `n`.
pub proof fn lemma_le_bytes_val(n: int, w: int)
    requires
        0 <= w,
        0 <= n < pow256(w),
    ensures
        spec_le_bytes(n, w).len() == w,
        spec_le_val(spec_le_bytes(n, w)) == n,
    decreases w,
{
    if w <= 0 {
    } else {
        assert(n / 256 < pow256(w - 1) && n / 256 >= 0) by (nonlinear_arith)
            requires
                0 <= n < 256 * pow256(w - 1),
        {}
        lemma_le_bytes_val(n / 256, w - 1);
        let s = spec_le_bytes(n, w);
        assert(s.skip(1) =~= spec_le_bytes(n / 256, w - 1));
        assert(s[0] == (n % 256) as u8);
        assert(spec_le_val(s) == n % 256 + 256 * (n / 256));
    }
}

/// The canonical length prefix of a block of `len` bytes: the smallest
/// width class that holds the length.
pub open spec fn spec_len_prefix(len: int) -> Seq<u8> {
    if len <= 0xff {
        seq![0u8] + spec_le_bytes(len, 1)
    } else if len <= 0xffff {
        seq![1u8] + spec_le_bytes(len, 2)
    } else if len <= 0xffff_ffff {
        seq![2u8] + spec_le_bytes(len, 4)
    } else {
        seq![3u8] + spec_le_bytes(len, 8)
    }
}

/// The width of the length field selected by a class byte.
pub open spec fn spec_width(b: u8) -> int {
    if b == 0 {
        1
    } else if b == 1 {
        2
    } else if b == 2 {
        4
    } else {
        8
    }
}

/// Reading a length prefix from the head of `c`: the block length and the
/// number of bytes the prefix occupies.  An empty `c` reads as end of
/// file, `(0, 0)`.
pub open spec fn parse_len_prefix(c: Seq<u8>, n: int) -> Result<(int, int), LoadFileError> {
    if c.len() == 0 {
        Ok((0, 0))
    } else if c[0] > 3 {
        Err(LoadFileError::WrongFirstByte { block_num: n as usize })
    } else {
        let w = spec_width(c[0]);
        if c.len() < 1 + w {
            Err(LoadFileError::UnexpectedEndOfFile { block_num: n as usize })
        } else {
            let len = spec_le_val(c.subrange(1, 1 + w));
            if len == 0 {
                Err(LoadFileError::WrongMinBinBlockLen { block_num: n as usize })
            } else {
                Ok((len, 1 + w))
            }
        }
    }
}

/// The significant bytes of a binary record: the opcode byte followed by
/// the payload.
pub open spec fn spec_bin_sig(r: RawRec) -> Seq<u8> {
    match r {
        RawRec::Insert(p) => seq![0u8] + p,
        RawRec::Remove(p) => seq![1u8] + p,
    }
}

/// A binary record can round-trip when its payload is not empty (the
/// integrity checks ask for at least one payload byte) and its block
/// length fits a length field.
pub open spec fn bin_rec_wf(r: RawRec) -> bool {
    1 <= rec_payload(r).len() && rec_payload(r).len() + 40 < pow256(8)
}

pub open spec fn bin_recs_wf(recs: Seq<RawRec>) -> bool {
    forall|i: int| 0 <= i < recs.len() ==> bin_rec_wf(#[trigger] recs[i])
}

/// The least length of a block under an integrity mode: the opcode, at
/// least one payload byte, and the tag.
pub open spec fn min_block_len(i: IntegritySpec) -> int {
    match i {
        IntegritySpec::Crc32 => 6,
        IntegritySpec::Sha1Chain(_) => 21,
        IntegritySpec::Sha256Chain(_) => 33,
    }
}

/// The integrity error reported for a mode.
pub open spec fn bin_kind_err(i: IntegritySpec, n: int) -> IntegrityError {
    match i {
        IntegritySpec::Crc32 => IntegrityError::Crc32Error { line_num: n as usize },
        IntegritySpec::Sha1Chain(_) => IntegrityError::Sha1ChainError { line_num: n as usize },
        IntegritySpec::Sha256Chain(_) => IntegrityError::Sha256ChainError { line_num: n as usize },
    }
}

/// Splits a block into the significant bytes and the tag, checks the tag
/// and advances the chain.
pub open spec fn split_bin_sig(i: IntegritySpec, block: Seq<u8>, n: int) -> Result<
    (Seq<u8>, IntegritySpec),
    IntegrityError,
> {
    if block.len() < min_block_len(i) {
        Err(bin_kind_err(i, n))
    } else {
        let sig = block.take(block.len() - tag_len(i));
        let tag = block.skip(block.len() - tag_len(i));
        if tag == spec_bin_tag(i, sig) {
            Ok((sig, spec_step(i, sig)))
        } else {
            Err(bin_kind_err(i, n))
        }
    }
}

/// The body of a block: the significant bytes plus the tag, if any.
pub open spec fn spec_bin_body(oi: Option<IntegritySpec>, sig: Seq<u8>) -> Seq<u8> {
    match oi {
        None => sig,
        Some(i) => sig + spec_bin_tag(i, sig),
    }
}

/// A whole encoded block: the length prefix and the body.
pub open spec fn spec_bin_block(oi: Option<IntegritySpec>, sig: Seq<u8>) -> Seq<u8> {
    spec_len_prefix(spec_bin_body(oi, sig).len() as int) + spec_bin_body(oi, sig)
}

/// The encoding of a whole sequence of records in binary format.
pub open spec fn enc_bin(oi: Option<IntegritySpec>, recs: Seq<RawRec>) -> Seq<u8>
    decreases recs.len(),
{
    if recs.len() == 0 {
        Seq::empty()
    } else {
        spec_bin_block(oi, spec_bin_sig(recs[0]))
            + enc_bin(spec_step_opt(oi, spec_bin_sig(recs[0])), recs.skip(1))
    }
}

/// The integrity state after a sequence of binary records.
pub open spec fn adv_bin(oi: Option<IntegritySpec>, recs: Seq<RawRec>) -> Option<IntegritySpec>
    decreases recs.len(),
{
    if recs.len() == 0 {
        oi
    } else {
        adv_bin(spec_step_opt(oi, spec_bin_sig(recs[0])), recs.skip(1))
    }
}

/// The outcome of parsing a binary log.
pub struct BinParse {
    pub res: Result<Seq<RawRec>, LoadFileError>,
    pub st: Option<IntegritySpec>,
}

/// Parses the content of a binary log, block by block, `n` being the
/// 1-based index of the first record of `c`.
pub open spec fn parse_bin(oi: Option<IntegritySpec>, c: Seq<u8>, n: int) -> BinParse
    decreases c.len(),
{
    if c.len() == 0 {
        BinParse { res: Ok(Seq::empty()), st: oi }
    } else {
        match parse_len_prefix(c, n) {
            Err(e) => BinParse { res: Err(e), st: oi },
            Ok((len, used)) => if !(1 <= used && 1 <= len) {
                // never reached: on nonempty input a prefix is read
                BinParse {
                    res: Err(LoadFileError::WrongMinBinBlockLen { block_num: n as usize }),
                    st: oi,
                }
            } else if c.len() < used + len {
                BinParse {
                    res: Err(LoadFileError::UnexpectedEndOfFile { block_num: n as usize }),
                    st: oi,
                }
            } else {
                let block = c.subrange(used, used + len);
                let split = match oi {
                    None => Ok((block, None)),
                    Some(i) => match split_bin_sig(i, block, n) {
                        Ok((sig, i2)) => Ok((sig, Some(i2))),
                        Err(e) => Err(e),
                    },
                };
                match split {
                    Err(e) => BinParse { res: Err(LoadFileError::IntegrityError(e)), st: oi },
                    Ok((sig, st1)) => {
                        if sig.len() < 1 {
                            BinParse {
                                res: Err(
                                    LoadFileError::NoLineDefinition { line_num: n as usize },
                                ),
                                st: st1,
                            }
                        } else if sig[0] == 0 || sig[0] == 1 {
                            let rec = if sig[0] == 0 {
                                RawRec::Insert(sig.skip(1))
                            } else {
                                RawRec::Remove(sig.skip(1))
                            };
                            let rest = parse_bin(st1, c.skip(used + len), n + 1);
                            match rest.res {
                                Ok(rs) => BinParse { res: Ok(seq![rec] + rs), st: rest.st },
                                Err(e) => BinParse { res: Err(e), st: rest.st },
                            }
                        } else {
                            BinParse {
                                res: Err(
                                    LoadFileError::NoLineDefinition { line_num: n as usize },
                                ),
                                st: st1,
                            }
                        }
                    },
                }
            },
        }
    }
}

/// A parse outcome prefixed with already-parsed records.
pub open spec fn bin_combine(pre: Seq<RawRec>, p: BinParse) -> BinParse {
    BinParse {
        res: match p.res {
            Ok(rs) => Ok(pre + rs),
            Err(e) => Err(e),
        },
        st: p.st,
    }
}

/// The little-endian bytes of `n`, `w` bytes wide.
fn le_bytes(n: u64, w: usize) -> (r: Vec<u8>)
    ensures
        r@ == spec_le_bytes(n as int, w as int),
    decreases w,
{
    if w == 0 {
        let r: Vec<u8> = Vec::new();
        proof {
            assert(r@ =~= spec_le_bytes(n as int, 0));
        }
        r
    } else {
        let mut r: Vec<u8> = Vec::new();
        r.push((n % 256) as u8);
        let mut rest = le_bytes(n / 256, w - 1);
        r.append(&mut rest);
        proof {
            assert(r@ =~= spec_le_bytes(n as int, w as int));
        }
        r
    }
}

/// The length prefix of a block of `len` bytes: the class byte and the
/// length in the smallest width that holds it.
pub fn bin_block_len(len: usize) -> (r: Vec<u8>)
    ensures
        r@ == spec_len_prefix(len as int),
{
    let mut r: Vec<u8> = Vec::new();
    if len <= 0xff {
        r.push(0u8);
        let mut rest = le_bytes(len as u64, 1);
        r.append(&mut rest);
    } else if len <= 0xffff {
        r.push(1u8);
        let mut rest = le_bytes(len as u64, 2);
        r.append(&mut rest);
    } else if len <= 0xffff_ffff {
        r.push(2u8);
        let mut rest = le_bytes(len as u64, 4);
        r.append(&mut rest);
    } else {
        r.push(3u8);
        let mut rest = le_bytes(len as u64, 8);
        r.append(&mut rest);
    }
    proof {
        assert(r@ =~= spec_len_prefix(len as int));
    }
    r
}

/// `pow256` at the widths that occur.
pub proof fn lemma_pow256_8()
    ensures
        pow256(1) == 0x100,
        pow256(2) == 0x10000,
        pow256(4) == 0x1_0000_0000,
        pow256(8) == 0x1_0000_0000_0000_0000,
{
    assert(pow256(0) == 1);
    assert(pow256(1) == 0x100);
    assert(pow256(2) == 0x10000);
    assert(pow256(3) == 0x100_0000);
    assert(pow256(4) == 0x1_0000_0000);
    assert(pow256(5) == 0x100_0000_0000);
    assert(pow256(6) == 0x1_0000_0000_0000);
    assert(pow256(7) == 0x100_0000_0000_0000);
    assert(pow256(8) == 0x1_0000_0000_0000_0000);
}

/// Reads the length prefix of the block that starts at `pos`: the block
/// length and the number of prefix bytes.  `(0, 0)` means end of file.
pub fn read_bin_block_len(content: &[u8], pos: usize, block_num: usize) -> (r: Result<
    (u64, usize),
    LoadFileError,
>)
    requires
        pos <= content@.len(),
    ensures
        ({
            let p = parse_len_prefix(content@.skip(pos as int), block_num as int);
            match r {
                Ok((len, used)) => p == Ok::<(int, int), LoadFileError>(
                    (len as int, used as int),
                ),
                Err(e) => p == Err::<(int, int), LoadFileError>(e),
            }
        }),
{
    let ghost c = content@.skip(pos as int);
    if pos == content.len() {
        proof {
            assert(c =~= Seq::<u8>::empty());
        }
        return Ok((0, 0));
    }
    let b = content[pos];
    if b > 3 {
        return Err(LoadFileError::WrongFirstByte { block_num });
    }
    let w: usize = if b == 0 {
        1
    } else if b == 1 {
        2
    } else if b == 2 {
        4
    } else {
        8
    };
    if content.len() - pos < 1 + w {
        return Err(LoadFileError::UnexpectedEndOfFile { block_num });
    }
    let ghost lenb = c.subrange(1, 1 + w as int);
    proof {
        lemma_le_val_bound(lenb);
    }
    let mut len: u64 = 0;
    let mut i: usize = w;
    while i > 0
        invariant
            i <= w <= 8,
            pos + 1 + w <= content@.len(),
            content@.len() <= usize::MAX,
            lenb == c.subrange(1, 1 + w as int),
            c == content@.skip(pos as int),
            len as int == spec_le_val(lenb.skip(i as int)),
        decreases i,
    {
        proof {
            lemma_le_val_bound(lenb.skip(i as int - 1));
            assert(lenb.skip(i as int - 1).skip(1) =~= lenb.skip(i as int));
            assert(lenb.skip(i as int - 1).len() <= 8);
            lemma_pow256_8();
            assert(pow256(lenb.skip(i as int - 1).len() as int) <= pow256(8)) by {
                assert(pow256(0) == 1);
                assert(pow256(1) == 0x100);
                assert(pow256(2) == 0x10000);
                assert(pow256(3) == 0x100_0000);
                assert(pow256(4) == 0x1_0000_0000);
                assert(pow256(5) == 0x100_0000_0000);
                assert(pow256(6) == 0x1_0000_0000_0000);
                assert(pow256(7) == 0x100_0000_0000_0000);
            }
        }
        i -= 1;
        let byte = content[pos + 1 + i];
        proof {
            assert(lenb.skip(i as int)[0] == c[1 + i] == content@[pos as int + 1 + i]);
            assert(spec_le_val(lenb.skip(i as int)) == lenb.skip(i as int)[0] + 256 * spec_le_val(
                lenb.skip(i as int + 1),
            ));
        }
        len = len * 256 + (byte as u64);
    }
    proof {
        assert(lenb.skip(0) =~= lenb);
    }
    if len == 0 {
        return Err(LoadFileError::WrongMinBinBlockLen { block_num });
    }
    Ok((len, 1 + w))
}

/// Checks a block's integrity tag and returns its significant bytes,
/// advancing the chain state; on mismatch the state is unchanged.
pub fn process_block_integrity(block: &[u8], integrity: &mut Integrity, block_num: usize) -> (r:
    Result<Vec<u8>, IntegrityError>)
    ensures
        match r {
            Ok(sig) => split_bin_sig(old(integrity)@, block@, block_num as int) == Ok::<
                _,
                IntegrityError,
            >((sig@, final(integrity)@)),
            Err(e) => split_bin_sig(old(integrity)@, block@, block_num as int) == Err::<
                (Seq<u8>, IntegritySpec),
                _,
            >(e) && *final(integrity) == *old(integrity),
        },
{
    let (min_len, tag_w): (usize, usize) = match integrity {
        Integrity::Crc32 => (6, 4),
        Integrity::Sha1Chain(_) => (21, 20),
        Integrity::Sha256Chain(_) => (33, 32),
    };
    let kind_err = match integrity {
        Integrity::Crc32 => IntegrityError::Crc32Error { line_num: block_num },
        Integrity::Sha1Chain(_) => IntegrityError::Sha1ChainError { line_num: block_num },
        Integrity::Sha256Chain(_) => IntegrityError::Sha256ChainError { line_num: block_num },
    };
    if block.len() < min_len {
        return Err(kind_err);
    }
    let cut = block.len() - tag_w;
    let sig = subvec(block, 0, cut);
    let tag = subvec(block, cut, block.len());
    proof {
        assert(sig@ =~= block@.take(block@.len() - tag_len(old(integrity)@)));
        assert(tag@ =~= block@.skip(block@.len() - tag_len(old(integrity)@)));
    }
    let mut stepped = *integrity;
    let expected = crate::integrity::make_bin_tag(&mut stepped, sig.as_slice());
    if !crate::encdec::bytes_eq(expected.as_slice(), tag.as_slice()) {
        return Err(kind_err);
    }
    *integrity = stepped;
    Ok(sig)
}

/// Appends the integrity tag (when configured) to the significant bytes
/// of one binary record, advancing the chain state.
pub fn post_process_file_bin_block(bin_block: &mut Vec<u8>, integrity: &mut Option<Integrity>)
    ensures
        final(bin_block)@ == spec_bin_body(oi_view(*old(integrity)), old(bin_block)@),
        oi_view(*final(integrity)) == spec_step_opt(oi_view(*old(integrity)), old(bin_block)@),
{
    let ghost sig = bin_block@;
    match integrity {
        Some(i) => {
            let tag = make_bin_tag(i, bin_block.as_slice());
            bin_block.extend_from_slice(tag.as_slice());
            proof {
                assert(bin_block@ =~= sig + spec_bin_tag(oi_view(*old(integrity))->0, sig));
            }
        },
        None => {},
    }
}

/// The encoded block of an insert record with the given payload.
pub fn bin_file_block_of_insert(payload: &[u8], integrity: &mut Option<Integrity>) -> (r: Vec<
    u8,
>)
    ensures
        r@ == spec_bin_block(oi_view(*old(integrity)), spec_bin_sig(RawRec::Insert(payload@))),
        oi_view(*final(integrity)) == spec_step_opt(
            oi_view(*old(integrity)),
            spec_bin_sig(RawRec::Insert(payload@)),
        ),
{
    let mut data: Vec<u8> = Vec::new();
    data.push(0u8);
    data.extend_from_slice(payload);
    proof {
        assert(data@ =~= spec_bin_sig(RawRec::Insert(payload@)));
    }
    post_process_file_bin_block(&mut data, integrity);
    let mut res = bin_block_len(data.len());
    res.extend_from_slice(data.as_slice());
    proof {
        assert(res@ =~= spec_bin_block(
            oi_view(*old(integrity)),
            spec_bin_sig(RawRec::Insert(payload@)),
        ));
    }
    res
}

/// The encoded block of a remove record with the given payload.
pub fn bin_file_block_of_remove(payload: &[u8], integrity: &mut Option<Integrity>) -> (r: Vec<
    u8,
>)
    ensures
        r@ == spec_bin_block(oi_view(*old(integrity)), spec_bin_sig(RawRec::Remove(payload@))),
        oi_view(*final(integrity)) == spec_step_opt(
            oi_view(*old(integrity)),
            spec_bin_sig(RawRec::Remove(payload@)),
        ),
{
    let mut data: Vec<u8> = Vec::new();
    data.push(1u8);
    data.extend_from_slice(payload);
    proof {
        assert(data@ =~= spec_bin_sig(RawRec::Remove(payload@)));
    }
    post_process_file_bin_block(&mut data, integrity);
    let mut res = bin_block_len(data.len());
    res.extend_from_slice(data.as_slice());
    proof {
        assert(res@ =~= spec_bin_block(
            oi_view(*old(integrity)),
            spec_bin_sig(RawRec::Remove(payload@)),
        ));
    }
    res
}

/// Loads every record of a binary log, verifying integrity and advancing
/// the chain state; stops at the first malformed block with its 1-based
/// index.  The outcome is exactly what [`parse_bin`] specifies.
#[verifier::rlimit(100)]
#[verifier::loop_isolation(false)]
pub fn load_from_bin_file(content: &[u8], integrity: &mut Option<Integrity>) -> (r: Result<
    Vec<RawRecord>,
    LoadFileError,
>)
    ensures
        ({
            let p = parse_bin(oi_view(*old(integrity)), content@, 1);
            &&& match r {
                Ok(v) => p.res == Ok::<_, LoadFileError>(recs_view(v@)),
                Err(e) => p.res == Err::<Seq<RawRec>, _>(e),
            }
            &&& oi_view(*final(integrity)) == p.st
        }),
{
    let ghost oi0 = oi_view(*integrity);
    let mut out: Vec<RawRecord> = Vec::new();
    let mut pos: usize = 0;
    let mut n: usize = 1;
    proof {
        assert(content@.skip(0) =~= content@);
        assert(recs_view(out@) =~= Seq::<RawRec>::empty());
        let p = parse_bin(oi0, content@, 1);
        match p.res {
            Ok(rs) => {
                assert(recs_view(out@) + rs =~= rs);
            },
            Err(_) => {},
        }
    }
    loop
        invariant
            pos <= content@.len(),
            2 * ((n as int) - 1) <= pos as int,
            1 <= n,
            parse_bin(oi0, content@, 1) == bin_combine(
                recs_view(out@),
                parse_bin(oi_view(*integrity), content@.skip(pos as int), n as int),
            ),
        decreases content@.len() - pos,
    {
        let ghost rem = content@.skip(pos as int);
        let ghost cur = oi_view(*integrity);
        let ghost pre = recs_view(out@);
        if pos == content.len() {
            proof {
                assert(rem =~= Seq::<u8>::empty());
                assert(pre + Seq::<RawRec>::empty() =~= pre);
            }
            return Ok(out);
        }
        let (len64, used) = match read_bin_block_len(content, pos, n) {
            Ok(lu) => lu,
            Err(e) => {
                return Err(e);
            },
        };
        proof {
            // on a nonempty remainder the prefix names a positive length
            assert(rem[0] == content@[pos as int]);
            assert(1 <= len64 && 2 <= used && used as int <= rem.len());
            lemma_le_val_bound(rem.subrange(1, 1 + spec_width(rem[0])));
        }
        let remaining = content.len() - pos - used;
        if len64 > remaining as u64 {
            return Err(LoadFileError::UnexpectedEndOfFile { block_num: n });
        }
        let blen = len64 as usize;
        let bstart = pos + used;
        let bend = bstart + blen;
        let blockv = subvec(content, bstart, bend);
        proof {
            assert(blockv@ =~= rem.subrange(used as int, used as int + blen as int));
        }
        let sigv: Vec<u8> = match integrity {
            None => blockv,
            Some(integ) => {
                match process_block_integrity(blockv.as_slice(), integ, n) {
                    Ok(s) => s,
                    Err(e) => {
                        return Err(LoadFileError::IntegrityError(e));
                    },
                }
            },
        };
        let ghost st1 = oi_view(*integrity);
        if sigv.len() == 0 {
            return Err(LoadFileError::NoLineDefinition { line_num: n });
        }
        let op = sigv[0];
        if op > 1 {
            return Err(LoadFileError::NoLineDefinition { line_num: n });
        }
        let payload = subvec(sigv.as_slice(), 1, sigv.len());
        proof {
            assert(payload@ =~= sigv@.skip(1));
        }
        let rec = if op == 0 {
            RawRecord::Insert(payload)
        } else {
            RawRecord::Remove(payload)
        };
        let ghost rest = parse_bin(st1, rem.skip(used as int + blen as int), n as int + 1);
        out.push(rec);
        pos = bend;
        n = n + 1;
        proof {
            assert(rem.skip(used as int + blen as int) =~= content@.skip(pos as int));
            assert(recs_view(out@) =~= pre + seq![rec@]);
            match rest.res {
                Ok(rs) => {
                    assert(pre + (seq![rec@] + rs) =~= (pre + seq![rec@]) + rs);
                },
                Err(_) => {},
            }
        }
    }
}

/// Reading back a canonical length prefix yields the length it encodes.
pub proof fn lemma_prefix_roundtrip(len: int, tail: Seq<u8>, n: int)
    requires
        1 <= len < pow256(8),
    ensures
        ({
            let pre = spec_len_prefix(len);
            &&& parse_len_prefix(pre + tail, n) == Ok::<(int, int), LoadFileError>(
                (len, pre.len() as int),
            )
            &&& 2 <= pre.len() <= 9
        }),
{
    lemma_pow256_8();
    let pre = spec_len_prefix(len);
    let c = pre + tail;
    let w: int = if len <= 0xff {
        1
    } else if len <= 0xffff {
        2
    } else if len <= 0xffff_ffff {
        4
    } else {
        8
    };
    assert(len < pow256(w)) by {
        assert(pow256(1) == 0x100 && pow256(2) == 0x10000 && pow256(4) == 0x1_0000_0000);
    }
    lemma_le_bytes_val(len, w);
    assert(pre.len() == 1 + w);
    assert(c[0] == pre[0]);
    assert(spec_width(c[0]) == w);
    assert(c.subrange(1, 1 + w) =~= spec_le_bytes(len, w));
}

/// Parsing one encoded block recovers the record and hands the rest on:
/// the induction step of [`lemma_parse_enc_bin`].
proof fn lemma_parse_enc_bin_step(oi: Option<IntegritySpec>, r: RawRec, rest: Seq<u8>, n: int)
    requires
        bin_rec_wf(r),
    ensures
        ({
            let sig = spec_bin_sig(r);
            let body = spec_bin_body(oi, sig);
            let blk = spec_bin_block(oi, sig);
            let c = blk + rest;
            let pre_len = spec_len_prefix(body.len() as int).len() as int;
            &&& parse_len_prefix(c, n) == Ok::<(int, int), LoadFileError>(
                (body.len() as int, pre_len),
            )
            &&& c.len() >= pre_len + body.len()
            &&& c.subrange(pre_len, pre_len + body.len()) == body
            &&& (match oi {
                None => true,
                Some(i) => split_bin_sig(i, body, n) == Ok::<_, IntegrityError>(
                    (sig, spec_step(i, sig)),
                ),
            })
            &&& sig.len() >= 2
            &&& (sig[0] == 0 || sig[0] == 1)
            &&& sig.skip(1) == rec_payload(r)
            &&& c.skip(pre_len + body.len()) == rest
        }),
{
    let sig = spec_bin_sig(r);
    let body = spec_bin_body(oi, sig);
    let blk = spec_bin_block(oi, sig);
    let c = blk + rest;
    lemma_pow256_8();
    match oi {
        None => {},
        Some(i) => {
            lemma_bin_tag_len(i, sig);
        },
    }
    assert(1 <= body.len() && body.len() < pow256(8));
    lemma_prefix_roundtrip(body.len() as int, body + rest, n);
    let pre = spec_len_prefix(body.len() as int);
    assert(c =~= pre + (body + rest));
    assert(c.subrange(pre.len() as int, pre.len() as int + body.len() as int) =~= body);
    assert(c.skip(pre.len() as int + body.len() as int) =~= rest);
    match oi {
        None => {},
        Some(i) => {
            lemma_bin_tag_len(i, sig);
            assert(body.len() >= min_block_len(i));
            assert(body.take(body.len() - tag_len(i)) =~= sig);
            assert(body.skip(body.len() - tag_len(i)) =~= spec_bin_tag(i, sig));
        },
    }
    match r {
        RawRec::Insert(p) => {
            assert(sig.skip(1) =~= p);
        },
        RawRec::Remove(p) => {
            assert(sig.skip(1) =~= p);
        },
    }
}

/// Round trip: parsing an encoded binary log yields exactly the records
/// that were encoded, and the advanced integrity state.
#[verifier::rlimit(100)]
#[verifier::spinoff_prover]
pub proof fn lemma_parse_enc_bin(oi: Option<IntegritySpec>, recs: Seq<RawRec>, n: int)
    requires
        bin_recs_wf(recs),
    ensures
        parse_bin(oi, enc_bin(oi, recs), n) == (BinParse {
            res: Ok::<_, LoadFileError>(recs),
            st: adv_bin(oi, recs),
        }),
    decreases recs.len(),
{
    if recs.len() == 0 {
        assert(recs =~= Seq::<RawRec>::empty());
        assert(enc_bin(oi, recs) == Seq::<u8>::empty());
        assert(parse_bin(oi, enc_bin(oi, recs), n) == (BinParse {
            res: Ok::<_, LoadFileError>(recs),
            st: adv_bin(oi, recs),
        }));
    } else {
        let r = recs[0];
        let sig = spec_bin_sig(r);
        let body = spec_bin_body(oi, sig);
        let blk = spec_bin_block(oi, sig);
        let st1 = spec_step_opt(oi, sig);
        let rest = enc_bin(st1, recs.skip(1));
        let c = enc_bin(oi, recs);
        assert(c == blk + rest);
        lemma_parse_enc_bin_step(oi, r, rest, n);
        assert(bin_recs_wf(recs.skip(1))) by {
            assert forall|i: int| 0 <= i < recs.skip(1).len() implies bin_rec_wf(
                #[trigger] recs.skip(1)[i],
            ) by {
                assert(recs.skip(1)[i] == recs[i + 1]);
            }
        }
        lemma_parse_enc_bin(st1, recs.skip(1), n + 1);
        let pre_len = spec_len_prefix(body.len() as int).len() as int;
        assert(parse_len_prefix(c, n) == Ok::<(int, int), LoadFileError>(
            (body.len() as int, pre_len),
        ));
        assert(c.subrange(pre_len, pre_len + body.len()) == body);
        assert(c.skip(pre_len + body.len()) == rest);
        assert(parse_bin(st1, c.skip(pre_len + body.len()), n + 1) == (BinParse {
            res: Ok::<_, LoadFileError>(recs.skip(1)),
            st: adv_bin(st1, recs.skip(1)),
        }));
        match r {
            RawRec::Insert(_) => {
                assert(sig[0] == 0);
            },
            RawRec::Remove(_) => {
                assert(sig[0] == 1);
            },
        }
        assert(seq![r] + recs.skip(1) =~= recs);
        assert(adv_bin(oi, recs) == adv_bin(st1, recs.skip(1)));
        assert(parse_bin(oi, c, n).res == Ok::<_, LoadFileError>(recs));
        assert(parse_bin(oi, c, n).st == adv_bin(oi, recs));
    }
}

/// Crash safety of the binary format: cutting an encoded log at any
/// block boundary leaves a prefix that still parses cleanly, to exactly
/// the records before the cut.
pub proof fn lemma_prefix_replay_bin(oi: Option<IntegritySpec>, recs: Seq<RawRec>, i: int)
    requires
        bin_recs_wf(recs),
        0 <= i <= recs.len(),
    ensures
        parse_bin(oi, enc_bin(oi, recs.take(i)), 1).res == Ok::<_, LoadFileError>(recs.take(i)),
{
    assert(bin_recs_wf(recs.take(i))) by {
        assert forall|j: int| 0 <= j < recs.take(i).len() implies bin_rec_wf(
            #[trigger] recs.take(i)[j],
        ) by {
            assert(recs.take(i)[j] == recs[j]);
        }
    }
    lemma_parse_enc_bin(oi, recs.take(i), 1);
}

/// Error localization: whatever follows an intact prefix of blocks is
/// parsed after it, so an error in the continuation is reported with a
/// record index past the prefix, never earlier.
#[verifier::rlimit(100)]
#[verifier::spinoff_prover]
pub proof fn lemma_parse_bin_append(oi: Option<IntegritySpec>, c1: Seq<u8>, c2: Seq<u8>, n: int)
    requires
        parse_bin(oi, c1, n).res is Ok,
    ensures
        ({
            let p = parse_bin(oi, c1, n);
            let recs = p.res->Ok_0;
            parse_bin(oi, c1 + c2, n) == bin_combine(recs, parse_bin(p.st, c2, n + recs.len()))
        }),
    decreases c1.len(),
{
    let p = parse_bin(oi, c1, n);
    let recs = p.res->Ok_0;
    if c1.len() == 0 {
        assert(p.st == oi && recs =~= Seq::<RawRec>::empty());
        assert(c1 + c2 =~= c2);
        match parse_bin(oi, c2, n).res {
            Ok(rs) => {
                assert(recs + rs =~= rs);
            },
            Err(_) => {},
        }
    } else {
        let (len, used) = parse_len_prefix(c1, n)->Ok_0;
        let w = spec_width(c1[0]);
        assert((c1 + c2)[0] == c1[0]);
        assert((c1 + c2).subrange(1, 1 + w) =~= c1.subrange(1, 1 + w));
        assert(parse_len_prefix(c1 + c2, n) == Ok::<(int, int), LoadFileError>((len, used)));
        assert((c1 + c2).subrange(used, used + len) =~= c1.subrange(used, used + len));
        let block = c1.subrange(used, used + len);
        let split = match oi {
            None => Ok::<_, IntegrityError>((block, None)),
            Some(i) => match split_bin_sig(i, block, n) {
                Ok((s, i2)) => Ok((s, Some(i2))),
                Err(e) => Err(e),
            },
        };
        let (sig0, st1) = split->Ok_0;
        let rec0 = if sig0[0] == 0 {
            RawRec::Insert(sig0.skip(1))
        } else {
            RawRec::Remove(sig0.skip(1))
        };
        let rest = parse_bin(st1, c1.skip(used + len), n + 1);
        let rs = rest.res->Ok_0;
        assert(recs == seq![rec0] + rs);
        assert(p.st == rest.st);
        lemma_parse_bin_append(st1, c1.skip(used + len), c2, n + 1);
        assert((c1 + c2).skip(used + len) =~= c1.skip(used + len) + c2);
        let tail = parse_bin(p.st, c2, n + 1 + rs.len());
        assert(n + 1 + rs.len() == n + recs.len());
        match tail.res {
            Ok(ts) => {
                assert(seq![rec0] + (rs + ts) =~= (seq![rec0] + rs) + ts);
            },
            Err(_) => {},
        }
    }
}

/// Chain localization: after an intact prefix of `i - 1` blocks, a
/// continuation that does not verify is reported with the remainder's
/// own error, numbered from record `i` on - never at an earlier record.
pub proof fn lemma_chain_localization_bin(
    oi: Option<IntegritySpec>,
    good: Seq<RawRec>,
    c2: Seq<u8>,
)
    requires
        bin_recs_wf(good),
    ensures
        parse_bin(oi, enc_bin(oi, good) + c2, 1).res == (match parse_bin(
            adv_bin(oi, good),
            c2,
            good.len() as int + 1,
        ).res {
            Ok(rs) => Ok(good + rs),
            Err(e) => Err(e),
        }),
{
    lemma_parse_enc_bin(oi, good, 1);
    lemma_parse_bin_append(oi, enc_bin(oi, good), c2, 1);
}

/// Appending one well-formed record's block to a log that parses leaves
/// a log that parses, with the record appended and the state advanced.
#[verifier::rlimit(100)]
#[verifier::spinoff_prover]
pub proof fn lemma_parse_bin_snoc(oi: Option<IntegritySpec>, c: Seq<u8>, r: RawRec, n: int)
    requires
        parse_bin(oi, c, n).res is Ok,
        bin_rec_wf(r),
    ensures
        ({
            let p = parse_bin(oi, c, n);
            let blk = spec_bin_block(p.st, spec_bin_sig(r));
            parse_bin(oi, c + blk, n) == (BinParse {
                res: Ok::<_, LoadFileError>(p.res->Ok_0.push(r)),
                st: spec_step_opt(p.st, spec_bin_sig(r)),
            })
        }),
    decreases c.len(),
{
    let p = parse_bin(oi, c, n);
    let recs = p.res->Ok_0;
    let blk = spec_bin_block(p.st, spec_bin_sig(r));
    let sig = spec_bin_sig(r);
    if c.len() == 0 {
        assert(p.st == oi && recs =~= Seq::<RawRec>::empty());
        lemma_parse_enc_bin_step(oi, r, Seq::<u8>::empty(), n);
        assert(c + blk =~= blk + Seq::<u8>::empty());
        let cc = blk + Seq::<u8>::empty();
        let body = spec_bin_body(oi, sig);
        let pre_len = spec_len_prefix(body.len() as int).len() as int;
        assert(cc.skip(pre_len + body.len()).len() == 0);
        assert(parse_bin(spec_step_opt(oi, sig), cc.skip(pre_len + body.len()), n + 1).res
            == Ok::<_, LoadFileError>(Seq::<RawRec>::empty()));
        match r {
            RawRec::Insert(_) => {
                assert(sig[0] == 0);
            },
            RawRec::Remove(_) => {
                assert(sig[0] == 1);
            },
        }
        assert(seq![r] + Seq::<RawRec>::empty() =~= recs.push(r));
    } else {
        let (len, used) = parse_len_prefix(c, n)->Ok_0;
        let w = spec_width(c[0]);
        assert((c + blk)[0] == c[0]);
        assert((c + blk).subrange(1, 1 + w) =~= c.subrange(1, 1 + w));
        assert(parse_len_prefix(c + blk, n) == Ok::<(int, int), LoadFileError>((len, used)));
        assert((c + blk).subrange(used, used + len) =~= c.subrange(used, used + len));
        let block = c.subrange(used, used + len);
        let split = match oi {
            None => Ok::<_, IntegrityError>((block, None)),
            Some(i) => match split_bin_sig(i, block, n) {
                Ok((s, i2)) => Ok((s, Some(i2))),
                Err(e) => Err(e),
            },
        };
        let (sig0, st1) = split->Ok_0;
        let rest = parse_bin(st1, c.skip(used + len), n + 1);
        let rs = rest.res->Ok_0;
        assert(recs == seq![if sig0[0] == 0 {
            RawRec::Insert(sig0.skip(1))
        } else {
            RawRec::Remove(sig0.skip(1))
        }] + rs);
        assert(p.st == rest.st);
        lemma_parse_bin_snoc(st1, c.skip(used + len), r, n + 1);
        assert((c + blk).skip(used + len) =~= c.skip(used + len) + blk);
        assert(parse_bin(st1, (c + blk).skip(used + len), n + 1) == (BinParse {
            res: Ok::<_, LoadFileError>(rs.push(r)),
            st: spec_step_opt(p.st, sig),
        }));
        let rec0 = if sig0[0] == 0 {
            RawRec::Insert(sig0.skip(1))
        } else {
            RawRec::Remove(sig0.skip(1))
        };
        assert(seq![rec0] + rs.push(r) =~= (seq![rec0] + rs).push(r));
    }
}

/// Appending one record to an encoded binary log appends one block,
/// encoded under the integrity state the earlier records reached.
pub proof fn lemma_enc_bin_snoc(oi: Option<IntegritySpec>, recs: Seq<RawRec>, r: RawRec)
    ensures
        enc_bin(oi, recs.push(r)) == enc_bin(oi, recs) + spec_bin_block(
            adv_bin(oi, recs),
            spec_bin_sig(r),
        ),
        adv_bin(oi, recs.push(r)) == spec_step_opt(adv_bin(oi, recs), spec_bin_sig(r)),
    decreases recs.len(),
{
    if recs.len() == 0 {
        assert(recs.push(r)[0] == r);
        assert(recs.push(r).skip(1) =~= Seq::<RawRec>::empty());
        assert(enc_bin(oi, recs.push(r)) == spec_bin_block(oi, spec_bin_sig(r)) + enc_bin(
            spec_step_opt(oi, spec_bin_sig(r)),
            recs.push(r).skip(1),
        ));
        assert(enc_bin(spec_step_opt(oi, spec_bin_sig(r)), recs.push(r).skip(1))
            == Seq::<u8>::empty());
        assert(enc_bin(oi, recs) == Seq::<u8>::empty());
        assert(enc_bin(oi, recs) + spec_bin_block(adv_bin(oi, recs), spec_bin_sig(r))
            =~= spec_bin_block(oi, spec_bin_sig(r)) + Seq::<u8>::empty());
        assert(spec_bin_block(oi, spec_bin_sig(r)) + Seq::<u8>::empty() =~= spec_bin_block(
            oi,
            spec_bin_sig(r),
        ));
        assert(adv_bin(oi, recs.push(r)) == adv_bin(
            spec_step_opt(oi, spec_bin_sig(r)),
            recs.push(r).skip(1),
        ));
        assert(adv_bin(oi, recs) == oi);
    } else {
        let st1 = spec_step_opt(oi, spec_bin_sig(recs[0]));
        lemma_enc_bin_snoc(st1, recs.skip(1), r);
        assert(recs.push(r)[0] == recs[0]);
        assert(recs.push(r).skip(1) =~= recs.skip(1).push(r));
        assert(enc_bin(oi, recs.push(r)) =~= enc_bin(oi, recs) + spec_bin_block(
            adv_bin(oi, recs),
            spec_bin_sig(r),
        ));
        assert(adv_bin(oi, recs.push(r)) == adv_bin(st1, recs.skip(1).push(r)));
        assert(adv_bin(oi, recs) == adv_bin(st1, recs.skip(1)));
    }
}

} // verus!
