//! Text record codec: one record per line, `ins `/`rem ` followed by the
//! encoded payload and, when integrity is configured, a space and a tag.
//!
//! [`enc_text`] is the specification of a whole encoded log and
//! [`parse_text`] the specification of reading one back; the executable
//! encoder and loader are proved equal to them, and the round-trip lemmas
//! relate the two.

use vstd::prelude::*;
use crate::encdec::{
    find_byte, rfind_byte, lemma_find_byte, lemma_rfind_byte, lemma_hex_bytes, lemma_dec_bytes,
    find_byte_from, rfind_byte_range, bytes_eq, subvec, is_ws_byte, trim_ws, trim_ws_end,
};

use crate::integrity::{
    Integrity, IntegritySpec, oi_view, spec_text_tag, spec_step, spec_step_opt,
    make_text_tag, crc32_of, sha1_chain_of, sha256_chain_of,
};
use crate::format::{RawRecord, RawRec, recs_view, rec_payload, LoadFileError, IntegrityError};

verus! {

/// The four opcode bytes of an insert record, `ins `.
pub open spec fn op_ins() -> Seq<u8> {
    seq![105u8, 110u8, 115u8, 32u8]
}

/// The four opcode bytes of a remove record, `rem `.
pub open spec fn op_rem() -> Seq<u8> {
    seq![114u8, 101u8, 109u8, 32u8]
}

/// The significant bytes of a record: the opcode followed by the payload.
/// These are the bytes a CRC or chain hash is computed over.
pub open spec fn spec_sig(r: RawRec) -> Seq<u8> {
    match r {
        RawRec::Insert(p) => op_ins() + p,
        RawRec::Remove(p) => op_rem() + p,
    }
}

/// A record can stand on a text line exactly when its payload holds no
/// newline byte.
pub open spec fn text_rec_wf(r: RawRec) -> bool {
    forall|i: int| 0 <= i < rec_payload(r).len() ==> rec_payload(r)[i] != 10u8
}

pub open spec fn text_recs_wf(recs: Seq<RawRec>) -> bool {
    forall|i: int| 0 <= i < recs.len() ==> text_rec_wf(#[trigger] recs[i])
}

/// The full line of a record whose significant bytes are `sig`: the tag is
/// appended after a space when integrity is configured, then the newline.
pub open spec fn spec_text_line(oi: Option<IntegritySpec>, sig: Seq<u8>) -> Seq<u8> {
    match oi {
        None => sig + seq![10u8],
        Some(i) => sig + seq![32u8] + spec_text_tag(i, sig) + seq![10u8],
    }
}

/// The encoding of a whole sequence of records, threading the integrity
/// state from record to record.
pub open spec fn enc_text(oi: Option<IntegritySpec>, recs: Seq<RawRec>) -> Seq<u8>
    decreases recs.len(),
{
    if recs.len() == 0 {
        Seq::empty()
    } else {
        spec_text_line(oi, spec_sig(recs[0]))
            + enc_text(spec_step_opt(oi, spec_sig(recs[0])), recs.skip(1))
    }
}

/// Splits the body of a line (without its newline) into the significant
/// bytes and checks the tag, advancing the integrity state.
pub open spec fn split_sig(oi: Option<IntegritySpec>, body: Seq<u8>, n: int) -> Result<
    (Seq<u8>, Option<IntegritySpec>),
    LoadFileError,
> {
    match oi {
        None => Ok((body, None)),
        Some(i) => match rfind_byte(body, 32u8) {
            None => Err(
                LoadFileError::IntegrityError(
                    IntegrityError::NoExpectedHash { line_num: n as usize },
                ),
            ),
            Some(sp) => {
                let sig = body.take(sp);
                let tag = trim_ws(body.skip(sp + 1));
                if tag == spec_text_tag(i, sig) {
                    Ok((sig, Some(spec_step(i, sig))))
                } else {
                    Err(
                        LoadFileError::IntegrityError(
                            match i {
                                IntegritySpec::Crc32 => IntegrityError::Crc32Error {
                                    line_num: n as usize,
                                },
                                IntegritySpec::Sha1Chain(_) => IntegrityError::Sha1ChainError {
                                    line_num: n as usize,
                                },
                                IntegritySpec::Sha256Chain(_) => IntegrityError::Sha256ChainError {
                                    line_num: n as usize,
                                },
                            },
                        ),
                    )
                }
            },
        },
    }
}

/// Reads the opcode of the significant bytes.
pub open spec fn sig_rec(sig: Seq<u8>, n: int) -> Result<RawRec, LoadFileError> {
    if sig.len() < 4 {
        Err(LoadFileError::NoLineDefinition { line_num: n as usize })
    } else if sig.take(4) == op_ins() {
        Ok(RawRec::Insert(sig.skip(4)))
    } else if sig.take(4) == op_rem() {
        Ok(RawRec::Remove(sig.skip(4)))
    } else {
        Err(LoadFileError::NoLineDefinition { line_num: n as usize })
    }
}

/// The outcome of parsing a text log: the records or the first error, and
/// the integrity state reached.
pub struct TextParse {
    pub res: Result<Seq<RawRec>, LoadFileError>,
    pub st: Option<IntegritySpec>,
}

/// Parses the content of a text log, record by record, `n` being the
/// 1-based index of the first record of `c`.  Mirrors the checks of the
/// loader: every line must end with a newline, reach the least length,
/// carry a valid tag when integrity is configured, and start with a known
/// opcode.
pub open spec fn parse_text(oi: Option<IntegritySpec>, c: Seq<u8>, n: int) -> TextParse
    decreases c.len(),
{
    if c.len() == 0 {
        TextParse { res: Ok(Seq::empty()), st: oi }
    } else {
        match find_byte(c, 10u8) {
            None => TextParse {
                res: Err(LoadFileError::LastLineWithoutEndLine { line_num: n as usize }),
                st: oi,
            },
            Some(j) => if !(0 <= j < c.len()) {
                // never reached: a found index is in bounds
                TextParse {
                    res: Err(LoadFileError::LastLineWithoutEndLine { line_num: n as usize }),
                    st: oi,
                }
            } else if j + 1 < 4 {
                TextParse {
                    res: Err(
                        LoadFileError::FileLineLengthLessThenMinimum { line_num: n as usize },
                    ),
                    st: oi,
                }
            } else {
                match split_sig(oi, c.take(j), n) {
                    Err(e) => TextParse { res: Err(e), st: oi },
                    Ok((sig, st1)) => match sig_rec(sig, n) {
                        Err(e) => TextParse { res: Err(e), st: st1 },
                        Ok(rec) => {
                            let rest = parse_text(st1, c.skip(j + 1), n + 1);
                            match rest.res {
                                Ok(rs) => TextParse { res: Ok(seq![rec] + rs), st: rest.st },
                                Err(e) => TextParse { res: Err(e), st: rest.st },
                            }
                        },
                    },
                }
            },
        }
    }
}

/// Checks the integrity tag of one line's body (the line without its
/// newline) and returns the significant bytes, advancing the chain
/// state; on a missing or wrong tag the state is unchanged.
pub fn process_line_integrity(body: &[u8], integrity: &mut Integrity, line_num: usize) -> (r:
    Result<Vec<u8>, IntegrityError>)
    ensures
        match r {
            Ok(sig) => split_sig(Some(old(integrity)@), body@, line_num as int) == Ok::<
                _,
                LoadFileError,
            >((sig@, Some(final(integrity)@))),
            Err(e) => split_sig(Some(old(integrity)@), body@, line_num as int) == Err::<
                (Seq<u8>, Option<IntegritySpec>),
                _,
            >(LoadFileError::IntegrityError(e)) && *final(integrity) == *old(integrity),
        },
{
    let sp = match rfind_byte_range(body, 0, body.len(), 32u8) {
        Some(sp) => sp,
        None => {
            proof {
                assert(body@.subrange(0, body@.len() as int) =~= body@);
            }
            return Err(IntegrityError::NoExpectedHash { line_num });
        },
    };
    proof {
        assert(body@.subrange(0, body@.len() as int) =~= body@);
        lemma_rfind_byte(body@, 32u8);
    }
    let sig = subvec(body, 0, sp);
    let tag_end = trim_ws_end(body, sp + 1, body.len());
    let tag = subvec(body, sp + 1, tag_end);
    proof {
        assert(sig@ =~= body@.take(sp as int));
        assert(body@.subrange(sp as int + 1, body@.len() as int) =~= body@.skip(sp as int + 1));
        assert(tag@ == trim_ws(body@.skip(sp as int + 1)));
    }
    let mut stepped = *integrity;
    let expected = make_text_tag(&mut stepped, sig.as_slice());
    if !bytes_eq(expected.as_slice(), tag.as_slice()) {
        return Err(match integrity {
            Integrity::Crc32 => IntegrityError::Crc32Error { line_num },
            Integrity::Sha1Chain(_) => IntegrityError::Sha1ChainError { line_num },
            Integrity::Sha256Chain(_) => IntegrityError::Sha256ChainError { line_num },
        });
    }
    *integrity = stepped;
    Ok(sig)
}

/// A parse outcome prefixed with already-parsed records.
pub open spec fn text_combine(pre: Seq<RawRec>, p: TextParse) -> TextParse {
    TextParse {
        res: match p.res {
            Ok(rs) => Ok(pre + rs),
            Err(e) => Err(e),
        },
        st: p.st,
    }
}

/// Loads every record of a text log, verifying integrity and advancing
/// the chain state; stops at the first malformed record with its 1-based
/// index.  The outcome is exactly what [`parse_text`] specifies.
#[verifier::rlimit(100)]
#[verifier::loop_isolation(false)]
pub fn load_from_text_file(content: &[u8], integrity: &mut Option<Integrity>) -> (r: Result<
    Vec<RawRecord>,
    LoadFileError,
>)
    ensures
        ({
            let p = parse_text(oi_view(*old(integrity)), content@, 1);
            &&& match r {
                Ok(v) => p.res == Ok::<_, LoadFileError>(recs_view(v@)),
                Err(e) => p.res == Err::<Seq<RawRec>, _>(e),
            }
            &&& oi_view(*final(integrity)) == p.st
        }),
{
    let ghost oi0 = oi_view(*integrity);
    let mut out: Vec<RawRecord> = Vec::new();
    let mut pos: usize = 0;
    let mut n: usize = 1;
    proof {
        assert(content@.skip(0) =~= content@);
        assert(recs_view(out@) =~= Seq::<RawRec>::empty());
        let p = parse_text(oi0, content@, 1);
        match p.res {
            Ok(rs) => {
                assert(recs_view(out@) + rs =~= rs);
            },
            Err(_) => {},
        }
    }
    loop
        invariant
            pos <= content@.len(),
            4 * ((n as int) - 1) <= pos as int,
            1 <= n,
            parse_text(oi0, content@, 1) == text_combine(
                recs_view(out@),
                parse_text(oi_view(*integrity), content@.skip(pos as int), n as int),
            ),
        decreases content@.len() - pos,
    {
        let ghost rem = content@.skip(pos as int);
        let ghost cur = oi_view(*integrity);
        let ghost pre = recs_view(out@);
        if pos == content.len() {
            proof {
                assert(rem =~= Seq::<u8>::empty());
                assert(pre + Seq::<RawRec>::empty() =~= pre);
            }
            return Ok(out);
        }
        // find the end of the line
        let nl = match find_byte_from(content, pos, 10u8) {
            Some(nl) => nl,
            None => {
                proof {
                    let lp = parse_text(cur, rem, n as int);
                    assert(lp.res == Err::<Seq<RawRec>, LoadFileError>(
                        LoadFileError::LastLineWithoutEndLine { line_num: n },
                    ));
                    assert(lp.st == cur);
                }
                return Err(LoadFileError::LastLineWithoutEndLine { line_num: n });
            },
        };
        proof {
            lemma_find_byte(rem, 10u8);
        }
        // the whole line, newline included, must reach the least length
        if nl + 1 - pos < 4 {
            proof {
                let lp = parse_text(cur, rem, n as int);
                assert(lp.res == Err::<Seq<RawRec>, LoadFileError>(
                    LoadFileError::FileLineLengthLessThenMinimum { line_num: n },
                ));
                assert(lp.st == cur);
            }
            return Err(LoadFileError::FileLineLengthLessThenMinimum { line_num: n });
        }
        let ghost j = nl - pos;
        let ghost body = rem.take(j as int);
        proof {
            assert(body =~= content@.subrange(pos as int, nl as int));
        }
        // split off and check the integrity tag
        let (sig_lo, sig_hi) = match integrity {
            None => (pos, nl),
            Some(integ) => {
                match rfind_byte_range(content, pos, nl, 32u8) {
                    None => {
                        proof {
                            let lp = parse_text(cur, rem, n as int);
                            assert(split_sig(cur, body, n as int) == Err::<
                                (Seq<u8>, Option<IntegritySpec>),
                                LoadFileError,
                            >(
                                LoadFileError::IntegrityError(
                                    IntegrityError::NoExpectedHash { line_num: n },
                                ),
                            ));
                            assert(lp.res == Err::<Seq<RawRec>, LoadFileError>(
                                LoadFileError::IntegrityError(
                                    IntegrityError::NoExpectedHash { line_num: n },
                                ),
                            ));
                            assert(lp.st == cur);
                        }
                        return Err(
                            LoadFileError::IntegrityError(
                                IntegrityError::NoExpectedHash { line_num: n },
                            ),
                        );
                    },
                    Some(sp) => {
                        proof {
                            lemma_rfind_byte(content@.subrange(pos as int, nl as int), 32u8);
                        }
                        let sigv = subvec(content, pos, sp);
                        let tag_end = trim_ws_end(content, sp + 1, nl);
                        let tagv = subvec(content, sp + 1, tag_end);
                        let mut stepped = *integ;
                        let expected = make_text_tag(&mut stepped, sigv.as_slice());
                        proof {
                            assert(sigv@ =~= body.take(sp - pos));
                            assert(content@.subrange(sp as int + 1, nl as int) =~= body.skip(
                                sp - pos + 1,
                            ));
                            assert(tagv@ == trim_ws(body.skip(sp - pos + 1)));
                        }
                        if !bytes_eq(expected.as_slice(), tagv.as_slice()) {
                            proof {
                                let lp = parse_text(cur, rem, n as int);
                                let e = match split_sig(cur, body, n as int) {
                                    Err(e) => e,
                                    Ok(_) => arbitrary(),
                                };
                                assert(split_sig(cur, body, n as int) == Err::<
                                    (Seq<u8>, Option<IntegritySpec>),
                                    LoadFileError,
                                >(e));
                                assert(lp.res == Err::<Seq<RawRec>, LoadFileError>(e));
                                assert(lp.st == cur);
                            }
                            return Err(
                                LoadFileError::IntegrityError(
                                    match integ {
                                        Integrity::Crc32 => IntegrityError::Crc32Error {
                                            line_num: n,
                                        },
                                        Integrity::Sha1Chain(_) => IntegrityError::Sha1ChainError {
                                            line_num: n,
                                        },
                                        Integrity::Sha256Chain(_) => {
                                            IntegrityError::Sha256ChainError { line_num: n }
                                        },
                                    },
                                ),
                            );
                        }
                        *integ = stepped;
                        (pos, sp)
                    },
                }
            },
        };
        let ghost sig = content@.subrange(sig_lo as int, sig_hi as int);
        let ghost st1 = oi_view(*integrity);
        proof {
            match split_sig(cur, body, n as int) {
                Ok((sig_s, st_s)) => {
                    assert(sig_s =~= sig);
                    assert(st_s == st1);
                },
                Err(_) => {
                    assert(false);
                },
            }
        }
        // read the opcode
        if sig_hi - sig_lo < 4 {
            proof {
                let lp = parse_text(cur, rem, n as int);
                assert(sig_rec(sig, n as int) == Err::<RawRec, LoadFileError>(
                    LoadFileError::NoLineDefinition { line_num: n },
                ));
                assert(lp.res == Err::<Seq<RawRec>, LoadFileError>(
                    LoadFileError::NoLineDefinition { line_num: n },
                ));
                assert(lp.st == st1);
            }
            return Err(LoadFileError::NoLineDefinition { line_num: n });
        }
        let b0 = content[sig_lo];
        let b1 = content[sig_lo + 1];
        let b2 = content[sig_lo + 2];
        let b3 = content[sig_lo + 3];
        let is_ins = b0 == 105u8 && b1 == 110u8 && b2 == 115u8 && b3 == 32u8;
        let is_rem = b0 == 114u8 && b1 == 101u8 && b2 == 109u8 && b3 == 32u8;
        proof {
            if is_ins {
                assert(sig.take(4) =~= op_ins());
            } else {
                assert(sig.take(4)[0] == b0 && sig.take(4)[1] == b1 && sig.take(4)[2] == b2
                    && sig.take(4)[3] == b3);
                assert(sig.take(4) != op_ins());
            }
            if is_rem {
                assert(sig.take(4) =~= op_rem());
            } else {
                assert(sig.take(4) != op_rem());
            }
        }
        if !is_ins && !is_rem {
            proof {
                let lp = parse_text(cur, rem, n as int);
                assert(sig_rec(sig, n as int) == Err::<RawRec, LoadFileError>(
                    LoadFileError::NoLineDefinition { line_num: n },
                ));
                assert(lp.res == Err::<Seq<RawRec>, LoadFileError>(
                    LoadFileError::NoLineDefinition { line_num: n },
                ));
                assert(lp.st == st1);
            }
            return Err(LoadFileError::NoLineDefinition { line_num: n });
        }
        let payload = subvec(content, sig_lo + 4, sig_hi);
        proof {
            assert(payload@ =~= sig.skip(4));
        }
        let rec = if is_ins {
            RawRecord::Insert(payload)
        } else {
            RawRecord::Remove(payload)
        };
        let ghost rest = parse_text(st1, rem.skip(j + 1), n as int + 1);
        out.push(rec);
        pos = nl + 1;
        n = n + 1;
        proof {
            assert(rem.skip(j + 1) =~= content@.skip(pos as int));
            assert(recs_view(out@) =~= pre + seq![rec@]);
            match rest.res {
                Ok(rs) => {
                    assert(pre + (seq![rec@] + rs) =~= (pre + seq![rec@]) + rs);
                },
                Err(_) => {},
            }
        }
    }
}

/// Appends the integrity tag (when configured) and the final newline to
/// the significant bytes of one record, advancing the chain state.
pub fn post_process_text_file_line(line: &mut Vec<u8>, integrity: &mut Option<Integrity>)
    ensures
        final(line)@ == spec_text_line(oi_view(*old(integrity)), old(line)@),
        oi_view(*final(integrity)) == spec_step_opt(oi_view(*old(integrity)), old(line)@),
{
    let ghost sig = line@;
    match integrity {
        Some(i) => {
            let tag = make_text_tag(i, line.as_slice());
            line.push(32u8);
            line.extend_from_slice(tag.as_slice());
            line.push(10u8);
            proof {
                assert(line@ =~= sig + seq![32u8] + spec_text_tag(oi_view(*old(integrity))->0, sig)
                    + seq![10u8]);
            }
        },
        None => {
            line.push(10u8);
            proof {
                assert(line@ =~= sig + seq![10u8]);
            }
        },
    }
}

/// The integrity state after encoding or reading a sequence of records.
pub open spec fn adv_text(oi: Option<IntegritySpec>, recs: Seq<RawRec>) -> Option<IntegritySpec>
    decreases recs.len(),
{
    if recs.len() == 0 {
        oi
    } else {
        adv_text(spec_step_opt(oi, spec_sig(recs[0])), recs.skip(1))
    }
}

/// If `s[j]` is the first occurrence of `b`, then that is what
/// [`find_byte`] finds.
pub proof fn lemma_find_byte_unique(s: Seq<u8>, b: u8, j: int)
    requires
        0 <= j < s.len(),
        s[j] == b,
        forall|i: int| 0 <= i < j ==> s[i] != b,
    ensures
        find_byte(s, b) == Some(j),
{
    lemma_find_byte(s, b);
    match find_byte(s, b) {
        Some(j2) => {
            if j2 < j {
                assert(s[j2] != b);
            } else if j2 > j {
                assert(s[j] != b);
            }
        },
        None => {
            assert(s[j] != b);
        },
    }
}

/// If `s[j]` is the last occurrence of `b`, then that is what
/// [`rfind_byte`] finds.
pub proof fn lemma_rfind_byte_unique(s: Seq<u8>, b: u8, j: int)
    requires
        0 <= j < s.len(),
        s[j] == b,
        forall|i: int| j < i < s.len() ==> s[i] != b,
    ensures
        rfind_byte(s, b) == Some(j),
{
    lemma_rfind_byte(s, b);
    match rfind_byte(s, b) {
        Some(j2) => {
            if j2 > j {
                assert(s[j2] != b);
            } else if j2 < j {
                assert(s[j] != b);
            }
        },
        None => {
            assert(s[j] != b);
        },
    }
}

/// The significant bytes of a well-formed record hold no newline.
pub proof fn lemma_sig_no_newline(r: RawRec)
    requires
        text_rec_wf(r),
    ensures
        forall|i: int| 0 <= i < spec_sig(r).len() ==> spec_sig(r)[i] != 10u8,
        spec_sig(r).len() >= 4,
{
    assert forall|i: int| 0 <= i < spec_sig(r).len() implies spec_sig(r)[i] != 10u8 by {
        if i >= 4 {
            assert(spec_sig(r)[i] == rec_payload(r)[i - 4]);
        }
    }
}

/// A text tag is decimal digits or lower-case hex: in particular it
/// holds neither a newline, nor a space, nor any other whitespace.
pub proof fn lemma_tag_chars(i: IntegritySpec, sig: Seq<u8>)
    ensures
        forall|k: int|
            0 <= k < spec_text_tag(i, sig).len() ==> 48u8 <= (#[trigger] spec_text_tag(
                i,
                sig,
            )[k]) <= 102u8,
{
    match i {
        IntegritySpec::Crc32 => {
            lemma_dec_bytes(crc32_of(sig) as int);
        },
        IntegritySpec::Sha1Chain(prev) => {
            lemma_hex_bytes(sha1_chain_of(prev, sig));
        },
        IntegritySpec::Sha256Chain(prev) => {
            lemma_hex_bytes(sha256_chain_of(prev, sig));
        },
    }
}

/// Parsing one encoded line recovers the record and hands the rest on:
/// the induction step of [`lemma_parse_enc_text`].
proof fn lemma_parse_enc_text_step(oi: Option<IntegritySpec>, r: RawRec, rest: Seq<u8>, n: int)
    requires
        text_rec_wf(r),
    ensures
        ({
            let line = spec_text_line(oi, spec_sig(r));
            let c = line + rest;
            let st1 = spec_step_opt(oi, spec_sig(r));
            &&& find_byte(c, 10u8) == Some(line.len() - 1)
            &&& c.take(line.len() - 1) == line.drop_last()
            &&& split_sig(oi, line.drop_last(), n) == Ok::<_, LoadFileError>((spec_sig(r), st1))
            &&& sig_rec(spec_sig(r), n) == Ok::<_, LoadFileError>(r)
            &&& c.skip(line.len() as int) == rest
            &&& line.len() >= 5
        }),
{
    let sig = spec_sig(r);
    let line = spec_text_line(oi, sig);
    let c = line + rest;
    lemma_sig_no_newline(r);
    match oi {
        None => {
            assert(line[line.len() - 1] == 10u8);
            assert forall|i: int| 0 <= i < line.len() - 1 implies c[i] != 10u8 by {
                assert(c[i] == sig[i]);
            }
            lemma_find_byte_unique(c, 10u8, line.len() - 1);
            assert(c.take(line.len() - 1) =~= sig);
            assert(line.drop_last() =~= sig);
        },
        Some(ist) => {
            let tag = spec_text_tag(ist, sig);
            lemma_tag_chars(ist, sig);
            assert(line[line.len() - 1] == 10u8);
            assert forall|i: int| 0 <= i < line.len() - 1 implies c[i] != 10u8 by {
                if i < sig.len() {
                    assert(c[i] == sig[i]);
                } else if i == sig.len() {
                    assert(c[i] == 32u8);
                } else {
                    assert(c[i] == tag[i - sig.len() - 1]);
                }
            }
            lemma_find_byte_unique(c, 10u8, line.len() - 1);
            let body = line.drop_last();
            assert(c.take(line.len() - 1) =~= body);
            assert(body[sig.len() as int] == 32u8);
            assert forall|i: int| sig.len() < i < body.len() implies body[i] != 32u8 by {
                assert(body[i] == tag[i - sig.len() - 1]);
            }
            lemma_rfind_byte_unique(body, 32u8, sig.len() as int);
            assert(body.take(sig.len() as int) =~= sig);
            assert(body.skip(sig.len() as int + 1) =~= tag);
            assert(trim_ws(tag) == tag) by {
                if tag.len() > 0 {
                    assert(48u8 <= tag[tag.len() - 1] <= 102u8);
                    assert(!is_ws_byte(tag.last()));
                }
            }
        },
    }
    // the opcode is read back
    match r {
        RawRec::Insert(p) => {
            assert(sig.take(4) =~= op_ins());
            assert(sig.skip(4) =~= p);
        },
        RawRec::Remove(p) => {
            assert(sig.take(4) =~= op_rem());
            assert(sig.take(4) != op_ins());
            assert(sig.skip(4) =~= p);
        },
    }
    assert(c.skip(line.len() as int) =~= rest);
}

/// Round trip: parsing an encoded log yields exactly the records that
/// were encoded, and the advanced integrity state.
pub proof fn lemma_parse_enc_text(oi: Option<IntegritySpec>, recs: Seq<RawRec>, n: int)
    requires
        text_recs_wf(recs),
    ensures
        parse_text(oi, enc_text(oi, recs), n) == (TextParse {
            res: Ok::<_, LoadFileError>(recs),
            st: adv_text(oi, recs),
        }),
    decreases recs.len(),
{
    if recs.len() == 0 {
        assert(recs =~= Seq::<RawRec>::empty());
        assert(enc_text(oi, recs) == Seq::<u8>::empty());
        assert(parse_text(oi, enc_text(oi, recs), n) == (TextParse {
            res: Ok::<_, LoadFileError>(recs),
            st: adv_text(oi, recs),
        }));
    } else {
        let r = recs[0];
        let sig = spec_sig(r);
        let line = spec_text_line(oi, sig);
        let st1 = spec_step_opt(oi, sig);
        let rest = enc_text(st1, recs.skip(1));
        let c = enc_text(oi, recs);
        assert(c == line + rest);
        lemma_parse_enc_text_step(oi, r, rest, n);
        assert(text_recs_wf(recs.skip(1))) by {
            assert forall|i: int| 0 <= i < recs.skip(1).len() implies text_rec_wf(
                #[trigger] recs.skip(1)[i],
            ) by {
                assert(recs.skip(1)[i] == recs[i + 1]);
            }
        }
        lemma_parse_enc_text(st1, recs.skip(1), n + 1);
        let j = line.len() - 1;
        assert(find_byte(c, 10u8) == Some(j));
        assert(c.take(j) == line.drop_last());
        assert(split_sig(oi, c.take(j), n) == Ok::<_, LoadFileError>((sig, st1)));
        assert(sig_rec(sig, n) == Ok::<_, LoadFileError>(r));
        assert(c.skip(j + 1) == rest);
        assert(parse_text(st1, c.skip(j + 1), n + 1) == (TextParse {
            res: Ok::<_, LoadFileError>(recs.skip(1)),
            st: adv_text(st1, recs.skip(1)),
        }));
        assert(seq![r] + recs.skip(1) =~= recs);
        assert(parse_text(oi, c, n).res == Ok::<_, LoadFileError>(recs));
        assert(adv_text(oi, recs) == adv_text(st1, recs.skip(1)));
        assert(parse_text(oi, c, n).st == adv_text(oi, recs));
        assert(parse_text(oi, enc_text(oi, recs), n) == (TextParse {
            res: Ok::<_, LoadFileError>(recs),
            st: adv_text(oi, recs),
        }));
    }
}

/// Soundness: a log that parses yields well-formed records and leaves
/// the chain at their advanced state.  (The log's bytes need not be the
/// canonical encoding: a tag may carry trailing whitespace, which the
/// verifier trims; the canonical bytes of the same records are given by
/// [`lemma_parse_enc_text`].)
pub proof fn lemma_enc_parse_text(oi: Option<IntegritySpec>, c: Seq<u8>, n: int)
    requires
        parse_text(oi, c, n).res is Ok,
    ensures
        ({
            let recs = parse_text(oi, c, n).res->Ok_0;
            &&& text_recs_wf(recs)
            &&& parse_text(oi, c, n).st == adv_text(oi, recs)
        }),
    decreases c.len(),
{
    let recs = parse_text(oi, c, n).res->Ok_0;
    if c.len() == 0 {
        assert(recs =~= Seq::<RawRec>::empty());
    } else {
        let j = find_byte(c, 10u8)->0;
        lemma_find_byte(c, 10u8);
        let body = c.take(j);
        let (sig, st1) = split_sig(oi, body, n)->Ok_0;
        let rec = sig_rec(sig, n)->Ok_0;
        let rest = parse_text(st1, c.skip(j + 1), n + 1);
        let rs = rest.res->Ok_0;
        assert(recs == seq![rec] + rs);
        lemma_enc_parse_text(st1, c.skip(j + 1), n + 1);
        // the first record's payload carries no newline: it stands
        // before the line's first one
        assert(sig == spec_sig(rec) && text_rec_wf(rec)) by {
            if sig.take(4) == op_ins() {
                assert(spec_sig(rec) =~= sig);
            } else {
                assert(spec_sig(rec) =~= sig);
            }
            assert forall|i: int| 0 <= i < rec_payload(rec).len() implies rec_payload(rec)[i]
                != 10u8 by {
                assert(rec_payload(rec)[i] == sig[i + 4]);
                match oi {
                    None => {
                        assert(sig[i + 4] == c[i + 4]);
                    },
                    Some(_) => {
                        let sp = rfind_byte(body, 32u8)->0;
                        lemma_rfind_byte(body, 32u8);
                        assert(sig[i + 4] == body[i + 4]);
                        assert(body[i + 4] == c[i + 4]);
                    },
                }
            }
        }
        assert(st1 == spec_step_opt(oi, sig)) by {
            match oi {
                None => {},
                Some(_) => {},
            }
        }
        assert(text_recs_wf(recs)) by {
            assert forall|i: int| 0 <= i < recs.len() implies text_rec_wf(
                #[trigger] recs[i],
            ) by {
                if i == 0 {
                    assert(recs[0] == rec);
                } else {
                    assert(recs[i] == rs[i - 1]);
                }
            }
        }
        assert(recs[0] == rec);
        assert(recs.skip(1) =~= rs);
        assert(adv_text(oi, recs) == adv_text(st1, rs));
    }
}

/// Appending one record to an encoded log appends one line, encoded under
/// the integrity state the earlier records reached.
pub proof fn lemma_enc_text_snoc(oi: Option<IntegritySpec>, recs: Seq<RawRec>, r: RawRec)
    ensures
        enc_text(oi, recs.push(r)) == enc_text(oi, recs) + spec_text_line(
            adv_text(oi, recs),
            spec_sig(r),
        ),
        adv_text(oi, recs.push(r)) == spec_step_opt(adv_text(oi, recs), spec_sig(r)),
    decreases recs.len(),
{
    if recs.len() == 0 {
        assert(recs.push(r)[0] == r);
        assert(recs.push(r).skip(1) =~= Seq::<RawRec>::empty());
        assert(enc_text(oi, recs.push(r)) == spec_text_line(oi, spec_sig(r)) + enc_text(
            spec_step_opt(oi, spec_sig(r)),
            recs.push(r).skip(1),
        ));
        assert(enc_text(spec_step_opt(oi, spec_sig(r)), recs.push(r).skip(1))
            == Seq::<u8>::empty());
        assert(spec_text_line(oi, spec_sig(r)) + Seq::<u8>::empty() =~= spec_text_line(
            oi,
            spec_sig(r),
        ));
        assert(enc_text(oi, recs) == Seq::<u8>::empty());
        assert(enc_text(oi, recs) + spec_text_line(adv_text(oi, recs), spec_sig(r))
            =~= spec_text_line(oi, spec_sig(r)));
        assert(adv_text(oi, recs.push(r)) == adv_text(
            spec_step_opt(oi, spec_sig(r)),
            recs.push(r).skip(1),
        ));
        assert(adv_text(spec_step_opt(oi, spec_sig(r)), recs.push(r).skip(1)) == spec_step_opt(
            oi,
            spec_sig(r),
        ));
        assert(adv_text(oi, recs) == oi);
    } else {
        let st1 = spec_step_opt(oi, spec_sig(recs[0]));
        lemma_enc_text_snoc(st1, recs.skip(1), r);
        assert(recs.push(r)[0] == recs[0]);
        assert(recs.push(r).skip(1) =~= recs.skip(1).push(r));
        assert(enc_text(oi, recs.push(r)) =~= enc_text(oi, recs) + spec_text_line(
            adv_text(oi, recs),
            spec_sig(r),
        ));
        assert(adv_text(oi, recs.push(r)) == adv_text(st1, recs.skip(1).push(r)));
        assert(adv_text(oi, recs) == adv_text(st1, recs.skip(1)));
    }
}

/// Crash safety of the text format: cutting an encoded log at any record
/// boundary leaves a prefix that still parses cleanly, to exactly the
/// records before the cut.
pub proof fn lemma_prefix_replay_text(oi: Option<IntegritySpec>, recs: Seq<RawRec>, i: int)
    requires
        text_recs_wf(recs),
        0 <= i <= recs.len(),
    ensures
        parse_text(oi, enc_text(oi, recs.take(i)), 1).res == Ok::<_, LoadFileError>(recs.take(i)),
{
    assert(text_recs_wf(recs.take(i))) by {
        assert forall|j: int| 0 <= j < recs.take(i).len() implies text_rec_wf(
            #[trigger] recs.take(i)[j],
        ) by {
            assert(recs.take(i)[j] == recs[j]);
        }
    }
    lemma_parse_enc_text(oi, recs.take(i), 1);
}

/// Error localization: whatever follows an intact prefix of records is
/// parsed after it, so an error in the continuation is reported with a
/// record index past the prefix, never earlier.
pub proof fn lemma_parse_text_append(oi: Option<IntegritySpec>, c1: Seq<u8>, c2: Seq<u8>, n: int)
    requires
        parse_text(oi, c1, n).res is Ok,
    ensures
        ({
            let p = parse_text(oi, c1, n);
            let recs = p.res->Ok_0;
            parse_text(oi, c1 + c2, n) == text_combine(
                recs,
                parse_text(p.st, c2, n + recs.len()),
            )
        }),
    decreases c1.len(),
{
    let p = parse_text(oi, c1, n);
    let recs = p.res->Ok_0;
    if c1.len() == 0 {
        assert(p.st == oi && recs =~= Seq::<RawRec>::empty());
        assert(c1 + c2 =~= c2);
        match parse_text(oi, c2, n).res {
            Ok(rs) => {
                assert(recs + rs =~= rs);
            },
            Err(_) => {},
        }
    } else {
        let j = find_byte(c1, 10u8)->0;
        lemma_find_byte(c1, 10u8);
        assert forall|i: int| 0 <= i < j implies (c1 + c2)[i] != 10u8 by {
            assert((c1 + c2)[i] == c1[i]);
        }
        assert((c1 + c2)[j] == c1[j]);
        lemma_find_byte_unique(c1 + c2, 10u8, j);
        assert((c1 + c2).take(j) =~= c1.take(j));
        let body = c1.take(j);
        let (sig, st1) = split_sig(oi, body, n)->Ok_0;
        let rec0 = sig_rec(sig, n)->Ok_0;
        let rest = parse_text(st1, c1.skip(j + 1), n + 1);
        let rs = rest.res->Ok_0;
        assert(recs == seq![rec0] + rs);
        assert(p.st == rest.st);
        lemma_parse_text_append(st1, c1.skip(j + 1), c2, n + 1);
        assert((c1 + c2).skip(j + 1) =~= c1.skip(j + 1) + c2);
        let tail = parse_text(p.st, c2, n + 1 + rs.len());
        assert(n + 1 + rs.len() == n + recs.len());
        match tail.res {
            Ok(ts) => {
                assert(seq![rec0] + (rs + ts) =~= (seq![rec0] + rs) + ts);
            },
            Err(_) => {},
        }
    }
}

/// Chain localization: after an intact prefix of `i - 1` records, a
/// continuation that does not verify is reported with the remainder's
/// own error, numbered from record `i` on - never at an earlier record.
pub proof fn lemma_chain_localization_text(
    oi: Option<IntegritySpec>,
    good: Seq<RawRec>,
    c2: Seq<u8>,
)
    requires
        text_recs_wf(good),
    ensures
        parse_text(oi, enc_text(oi, good) + c2, 1).res == (match parse_text(
            adv_text(oi, good),
            c2,
            good.len() as int + 1,
        ).res {
            Ok(rs) => Ok(good + rs),
            Err(e) => Err(e),
        }),
{
    lemma_parse_enc_text(oi, good, 1);
    lemma_parse_text_append(oi, enc_text(oi, good), c2, 1);
}

/// Appending one well-formed record's line to a log that parses leaves
/// a log that parses, with the record appended and the state advanced.
pub proof fn lemma_parse_text_snoc(oi: Option<IntegritySpec>, c: Seq<u8>, r: RawRec, n: int)
    requires
        parse_text(oi, c, n).res is Ok,
        text_rec_wf(r),
    ensures
        ({
            let p = parse_text(oi, c, n);
            let line = spec_text_line(p.st, spec_sig(r));
            parse_text(oi, c + line, n) == (TextParse {
                res: Ok::<_, LoadFileError>(p.res->Ok_0.push(r)),
                st: spec_step_opt(p.st, spec_sig(r)),
            })
        }),
    decreases c.len(),
{
    let p = parse_text(oi, c, n);
    let recs = p.res->Ok_0;
    let line = spec_text_line(p.st, spec_sig(r));
    if c.len() == 0 {
        assert(p.st == oi && recs =~= Seq::<RawRec>::empty());
        lemma_parse_enc_text_step(oi, r, Seq::<u8>::empty(), n);
        assert(c + line =~= line + Seq::<u8>::empty());
        let cc = line + Seq::<u8>::empty();
        let j = line.len() - 1;
        assert(cc.skip(j + 1).len() == 0);
        assert(parse_text(spec_step_opt(oi, spec_sig(r)), cc.skip(j + 1), n + 1).res
            == Ok::<_, LoadFileError>(Seq::<RawRec>::empty()));
        assert(seq![r] + Seq::<RawRec>::empty() =~= recs.push(r));
    } else {
        let j = find_byte(c, 10u8)->0;
        lemma_find_byte(c, 10u8);
        assert forall|i: int| 0 <= i < j implies (c + line)[i] != 10u8 by {
            assert((c + line)[i] == c[i]);
        }
        assert((c + line)[j] == c[j]);
        lemma_find_byte_unique(c + line, 10u8, j);
        assert((c + line).take(j) =~= c.take(j));
        let body = c.take(j);
        let (sig, st1) = split_sig(oi, body, n)->Ok_0;
        let rec0 = sig_rec(sig, n)->Ok_0;
        let rest = parse_text(st1, c.skip(j + 1), n + 1);
        let rs = rest.res->Ok_0;
        assert(recs == seq![rec0] + rs);
        assert(p.st == rest.st);
        lemma_parse_text_snoc(st1, c.skip(j + 1), r, n + 1);
        assert((c + line).skip(j + 1) =~= c.skip(j + 1) + line);
        assert(parse_text(st1, (c + line).skip(j + 1), n + 1) == (TextParse {
            res: Ok::<_, LoadFileError>(rs.push(r)),
            st: spec_step_opt(p.st, spec_sig(r)),
        }));
        assert(seq![rec0] + rs.push(r) =~= (seq![rec0] + rs).push(r));
    }
}

/// The line of an insert record with the given encoded payload.
pub fn text_file_line_of_insert(payload: &[u8], integrity: &mut Option<Integrity>) -> (r: Vec<u8>)
    ensures
        r@ == spec_text_line(oi_view(*old(integrity)), spec_sig(RawRec::Insert(payload@))),
        oi_view(*final(integrity)) == spec_step_opt(
            oi_view(*old(integrity)),
            spec_sig(RawRec::Insert(payload@)),
        ),
{
    let mut line: Vec<u8> = Vec::new();
    line.push(105u8);
    line.push(110u8);
    line.push(115u8);
    line.push(32u8);
    line.extend_from_slice(payload);
    proof {
        assert(line@ =~= op_ins() + payload@);
    }
    post_process_text_file_line(&mut line, integrity);
    line
}

/// The line of a remove record with the given encoded payload.
pub fn file_line_of_remove(payload: &[u8], integrity: &mut Option<Integrity>) -> (r: Vec<u8>)
    ensures
        r@ == spec_text_line(oi_view(*old(integrity)), spec_sig(RawRec::Remove(payload@))),
        oi_view(*final(integrity)) == spec_step_opt(
            oi_view(*old(integrity)),
            spec_sig(RawRec::Remove(payload@)),
        ),
{
    let mut line: Vec<u8> = Vec::new();
    line.push(114u8);
    line.push(101u8);
    line.push(109u8);
    line.push(32u8);
    line.extend_from_slice(payload);
    proof {
        assert(line@ =~= op_rem() + payload@);
    }
    post_process_text_file_line(&mut line, integrity);
    line
}

} // verus!
