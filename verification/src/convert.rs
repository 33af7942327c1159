//! Offline log conversion: re-encode the records of a source log under a
//! different configuration, passing each decoded operation through a
//! caller-supplied transform.  The integrity chains of the two sides
//! advance independently.
//!
//! This works on log contents; opening, locking and replacing the files
//! is the caller's side of the work.

use vstd::prelude::*;
use crate::cfg::{Cfg, Format};
use crate::integrity::{IntegritySpec, oi_view};
use crate::format::{MapOperation, RawRecord, RawRec, recs_view, LoadFileError, SerializedError};
use crate::codec::KvCodec;
use crate::map_with_file::{
    sem_of_rec, sem_val, op_rec, op_encodable, first_undecodable, sem_err,
};
use crate::text_format::{
    TextParse, parse_text, load_from_text_file, text_file_line_of_insert, file_line_of_remove,
    lemma_parse_text_snoc,
};
use crate::bin_format::{
    BinParse, parse_bin, load_from_bin_file, bin_file_block_of_insert, bin_file_block_of_remove,
    lemma_parse_bin_snoc,
};

verus! {

/// Error of converting an operations log.
#[derive(Debug, PartialEq, Eq)]
pub enum ConvertError {
    /// The source log could not be opened.
    OpenSrcFileError,
    /// The destination log could not be opened.
    OpenDstFileError,
    /// The destination could not be truncated before conversion.
    ClearDstFileError,
    /// The source could not be locked exclusively.
    LockSrcFileError,
    /// The destination could not be locked exclusively.
    LockDstFileError,
    /// A transformed operation could not be encoded.
    SerializeError(SerializedError),
    /// The source log did not load; carries the record's 1-based index.
    LoadFileError(LoadFileError),
    /// Writing to the destination failed.
    WriteToFileError,
    /// A temporary file could not be made or moved into place.
    TmpFileError,
}

/// Turns a source operation into a destination operation; the executable
/// transform computes the specification function, so the converter's
/// contract can speak of it.
pub trait Transform<SK: DeepView, SV: DeepView, DK: DeepView, DV: DeepView> {
    /// The transformed operation.
    spec fn spec_transform(
        &self,
        op: MapOperation<<SK as DeepView>::V, <SV as DeepView>::V>,
    ) -> MapOperation<<DK as DeepView>::V, <DV as DeepView>::V>;

    /// Computes the transform.
    fn apply(&self, op: MapOperation<SK, SV>) -> (r: MapOperation<DK, DV>)
        ensures
            r.deep_view() == self.spec_transform(op.deep_view()),
    ;
}

/// Every transformed operation of the source's records is encodable
/// under the destination format.
pub open spec fn all_transformed_encodable<
    SK: DeepView,
    SV: DeepView,
    DK: DeepView,
    DV: DeepView,
    SC: KvCodec<SK, SV>,
    DC: KvCodec<DK, DV>,
    F: Transform<SK, SV, DK, DV>,
>(src_fmt: Format, dst_fmt: Format, f: &F, recs: Seq<RawRec>) -> bool {
    forall|j: int|
        0 <= j < recs.len() ==> op_encodable::<DK, DV, DC>(
            dst_fmt,
            #[trigger] f.spec_transform(sem_val::<SK, SV, SC>(src_fmt, recs[j])),
        )
}

/// The destination records of a conversion: each source record decoded,
/// transformed and re-encoded under the destination format.
pub open spec fn converted_recs<
    SK: DeepView,
    SV: DeepView,
    DK: DeepView,
    DV: DeepView,
    SC: KvCodec<SK, SV>,
    DC: KvCodec<DK, DV>,
    F: Transform<SK, SV, DK, DV>,
>(src_fmt: Format, dst_fmt: Format, f: &F, recs: Seq<RawRec>) -> Seq<RawRec> {
    Seq::new(
        recs.len(),
        |i: int| op_rec::<DK, DV, DC>(
            dst_fmt,
            f.spec_transform(sem_val::<SK, SV, SC>(src_fmt, recs[i])),
        ),
    )
}

/// What [`convert`] promises: on success the output parses under the
/// destination configuration to the transformed records and each of them
/// decodes; on a load failure the source log's error is handed through;
/// a serialization failure may also be reported.
pub open spec fn convert_post<
    SK: DeepView,
    SV: DeepView,
    DK: DeepView,
    DV: DeepView,
    SC: KvCodec<SK, SV>,
    DC: KvCodec<DK, DV>,
    F: Transform<SK, SV, DK, DV>,
>(src: Seq<u8>, src_cfg: Cfg, dst_cfg: Cfg, f: &F, r: Result<Vec<u8>, ConvertError>) -> bool {
    let src_parse = match src_cfg.format {
        Format::Text => parse_text(oi_view(src_cfg.integrity), src, 1).res,
        Format::Bin => parse_bin(oi_view(src_cfg.integrity), src, 1).res,
    };
    match r {
        Ok(out) => match src_parse {
            Ok(recs) => {
                let dst = converted_recs::<SK, SV, DK, DV, SC, DC, F>(
                    src_cfg.format,
                    dst_cfg.format,
                    f,
                    recs,
                );
                &&& (forall|i: int|
                    0 <= i < recs.len() ==> sem_of_rec::<SK, SV, SC>(
                        src_cfg.format,
                        #[trigger] recs[i],
                    ) is Some)
                &&& (match dst_cfg.format {
                    Format::Text => parse_text(oi_view(dst_cfg.integrity), out@, 1).res == Ok::<
                        _,
                        LoadFileError,
                    >(dst),
                    Format::Bin => parse_bin(oi_view(dst_cfg.integrity), out@, 1).res == Ok::<
                        _,
                        LoadFileError,
                    >(dst),
                })
                &&& (forall|i: int|
                    0 <= i < dst.len() ==> sem_of_rec::<DK, DV, DC>(
                        dst_cfg.format,
                        #[trigger] dst[i],
                    ) == Some(f.spec_transform(sem_val::<SK, SV, SC>(src_cfg.format, recs[i]))))
            },
            Err(_) => false,
        },
        Err(ConvertError::LoadFileError(e)) => match src_parse {
            Err(pe) => e == pe,
            Ok(recs) => first_undecodable::<SK, SV, SC>(src_cfg.format, recs, 0) matches Some(i)
                && e == sem_err(src_cfg.format, i),
        },
        // an encoding failure can be reported only once the whole source
        // loaded and decoded; a source of zero records therefore converts
        Err(ConvertError::SerializeError(_)) => match src_parse {
            Err(_) => false,
            Ok(recs) => first_undecodable::<SK, SV, SC>(src_cfg.format, recs, 0) is None
                && recs.len() > 0,
        },
        Err(_) => false,
    }
}

/// Re-encodes a source log under a destination configuration, passing
/// every decoded operation through `f`.  On success the output is a log
/// that parses under the destination configuration to exactly the
/// transformed records, each of which decodes back to its transformed
/// operation.  A load error carries the 1-based index of the failing
/// source record; a serialization error can arise only once the whole
/// source has loaded and decoded.  Conversion succeeds whenever the
/// source loads and every transformed operation is encodable.
#[verifier::loop_isolation(false)]
#[verifier::rlimit(100)]
pub fn convert<
    SK: DeepView,
    SV: DeepView,
    DK: DeepView,
    DV: DeepView,
    SC: KvCodec<SK, SV>,
    DC: KvCodec<DK, DV>,
    F: Transform<SK, SV, DK, DV>,
>(src: &[u8], src_cfg: Cfg, dst_cfg: Cfg, f: &F) -> (r: Result<Vec<u8>, ConvertError>)
    ensures
        convert_post::<SK, SV, DK, DV, SC, DC, F>(src@, src_cfg, dst_cfg, f, r),
        ({
            let src_parse = match src_cfg.format {
                Format::Text => parse_text(oi_view(src_cfg.integrity), src@, 1).res,
                Format::Bin => parse_bin(oi_view(src_cfg.integrity), src@, 1).res,
            };
            match src_parse {
                Ok(recs) => (first_undecodable::<SK, SV, SC>(src_cfg.format, recs, 0) is None
                    && all_transformed_encodable::<SK, SV, DK, DV, SC, DC, F>(
                    src_cfg.format,
                    dst_cfg.format,
                    f,
                    recs,
                )) ==> r is Ok,
                Err(_) => true,
            }
        }),
{
    let mut src_int = src_cfg.integrity;
    let loaded = match src_cfg.format {
        Format::Text => load_from_text_file(src, &mut src_int),
        Format::Bin => load_from_bin_file(src, &mut src_int),
    };
    let raws = match loaded {
        Ok(v) => v,
        Err(e) => {
            return Err(ConvertError::LoadFileError(e));
        },
    };
    let ghost rr = recs_view(raws@);
    // first decode and transform every source record; an encoding error
    // later can then only follow a fully loaded source
    let mut tops: Vec<MapOperation<DK, DV>> = Vec::new();
    let mut i: usize = 0;
    while i < raws.len()
        invariant
            i <= raws@.len(),
            rr == recs_view(raws@),
            tops@.len() == i,
            forall|j: int|
                0 <= j < i ==> sem_of_rec::<SK, SV, SC>(src_cfg.format, #[trigger] rr[j]) is Some,
            forall|j: int|
                0 <= j < i ==> (#[trigger] tops@[j].deep_view()) == f.spec_transform(
                    sem_val::<SK, SV, SC>(src_cfg.format, rr[j]),
                ),
        decreases raws@.len() - i,
    {
        let op: MapOperation<SK, SV> = match &raws[i] {
            RawRecord::Insert(p) => {
                let dec = match src_cfg.format {
                    Format::Text => SC::dec_pair_text(p.as_slice()),
                    Format::Bin => SC::dec_pair_bin(p.as_slice()),
                };
                match dec {
                    Some((k, v)) => MapOperation::Insert(k, v),
                    None => {
                        proof {
                            assert(rr[i as int] == raws@[i as int]@);
                            lemma_first_undecodable_here::<SK, SV, SC>(
                                src_cfg.format,
                                rr,
                                i as int,
                            );
                        }
                        return Err(
                            ConvertError::LoadFileError(
                                match src_cfg.format {
                                    Format::Text => LoadFileError::DeserializeJsonError {
                                        line_num: i + 1,
                                    },
                                    Format::Bin => LoadFileError::DeserializeBincodeError {
                                        block_num: i + 1,
                                    },
                                },
                            ),
                        );
                    },
                }
            },
            RawRecord::Remove(p) => {
                let dec = match src_cfg.format {
                    Format::Text => SC::dec_key_text(p.as_slice()),
                    Format::Bin => SC::dec_key_bin(p.as_slice()),
                };
                match dec {
                    Some(k) => MapOperation::Remove(k),
                    None => {
                        proof {
                            assert(rr[i as int] == raws@[i as int]@);
                            lemma_first_undecodable_here::<SK, SV, SC>(
                                src_cfg.format,
                                rr,
                                i as int,
                            );
                        }
                        return Err(
                            ConvertError::LoadFileError(
                                match src_cfg.format {
                                    Format::Text => LoadFileError::DeserializeJsonError {
                                        line_num: i + 1,
                                    },
                                    Format::Bin => LoadFileError::DeserializeBincodeError {
                                        block_num: i + 1,
                                    },
                                },
                            ),
                        );
                    },
                }
            },
        };
        proof {
            assert(rr[i as int] == raws@[i as int]@);
            assert(sem_of_rec::<SK, SV, SC>(src_cfg.format, rr[i as int]) == Some(
                op.deep_view(),
            ));
        }
        let top = f.apply(op);
        tops.push(top);
        i += 1;
    }
    proof {
        lemma_first_undecodable_none_from::<SK, SV, SC>(src_cfg.format, rr, 0);
    }
    // re-encode every transformed operation under the destination
    // configuration, threading its integrity chain
    let mut dst_int = dst_cfg.integrity;
    let ghost dst_oi0 = oi_view(dst_int);
    let mut out: Vec<u8> = Vec::new();
    let ghost mut dst_recs: Seq<RawRec> = Seq::empty();
    let mut i: usize = 0;
    proof {
        assert(out@.len() == 0);
        match dst_cfg.format {
            Format::Text => {
                assert(parse_text(dst_oi0, out@, 1) == (TextParse {
                    res: Ok::<_, LoadFileError>(dst_recs),
                    st: oi_view(dst_int),
                }));
            },
            Format::Bin => {
                assert(parse_bin(dst_oi0, out@, 1) == (BinParse {
                    res: Ok::<_, LoadFileError>(dst_recs),
                    st: oi_view(dst_int),
                }));
            },
        }
    }
    while i < tops.len()
        invariant
            i <= tops@.len(),
            tops@.len() == rr.len(),
            rr == recs_view(raws@),
            rr.len() > 0 || i == 0,
            dst_recs.len() == i,
            forall|j: int|
                0 <= j < rr.len() ==> sem_of_rec::<SK, SV, SC>(
                    src_cfg.format,
                    #[trigger] rr[j],
                ) is Some,
            forall|j: int|
                0 <= j < rr.len() ==> (#[trigger] tops@[j].deep_view()) == f.spec_transform(
                    sem_val::<SK, SV, SC>(src_cfg.format, rr[j]),
                ),
            forall|j: int|
                0 <= j < i ==> #[trigger] dst_recs[j] == op_rec::<DK, DV, DC>(
                    dst_cfg.format,
                    f.spec_transform(sem_val::<SK, SV, SC>(src_cfg.format, rr[j])),
                ),
            forall|j: int|
                0 <= j < i ==> sem_of_rec::<DK, DV, DC>(
                    dst_cfg.format,
                    #[trigger] dst_recs[j],
                ) == Some(f.spec_transform(sem_val::<SK, SV, SC>(src_cfg.format, rr[j]))),
            match dst_cfg.format {
                Format::Text => parse_text(dst_oi0, out@, 1) == (TextParse {
                    res: Ok::<_, LoadFileError>(dst_recs),
                    st: oi_view(dst_int),
                }),
                Format::Bin => parse_bin(dst_oi0, out@, 1) == (BinParse {
                    res: Ok::<_, LoadFileError>(dst_recs),
                    st: oi_view(dst_int),
                }),
            },
        decreases tops@.len() - i,
    {
        let ghost trec = op_rec::<DK, DV, DC>(dst_cfg.format, tops@[i as int].deep_view());
        let ghost out0 = out@;
        let ghost st_pre = oi_view(dst_int);
        let bytes = match &tops[i] {
            MapOperation::Insert(k, v) => {
                let enc = match dst_cfg.format {
                    Format::Text => DC::enc_pair_text(k, v),
                    Format::Bin => DC::enc_pair_bin(k, v),
                };
                let payload = match enc {
                    Ok(p) => p,
                    Err(e) => {
                        proof {
                            // the encoder fails only on an unencodable
                            // transformed operation
                            assert(!op_encodable::<DK, DV, DC>(
                                dst_cfg.format,
                                f.spec_transform(
                                    sem_val::<SK, SV, SC>(src_cfg.format, rr[i as int]),
                                ),
                            ));
                            assert(!all_transformed_encodable::<SK, SV, DK, DV, SC, DC, F>(
                                src_cfg.format,
                                dst_cfg.format,
                                f,
                                rr,
                            ));
                        }
                        return Err(ConvertError::SerializeError(e));
                    },
                };
                match dst_cfg.format {
                    Format::Text => text_file_line_of_insert(payload.as_slice(), &mut dst_int),
                    Format::Bin => bin_file_block_of_insert(payload.as_slice(), &mut dst_int),
                }
            },
            MapOperation::Remove(k) => {
                let enc = match dst_cfg.format {
                    Format::Text => DC::enc_key_text(k),
                    Format::Bin => DC::enc_key_bin(k),
                };
                let payload = match enc {
                    Ok(p) => p,
                    Err(e) => {
                        proof {
                            // the encoder fails only on an unencodable
                            // transformed operation
                            assert(!op_encodable::<DK, DV, DC>(
                                dst_cfg.format,
                                f.spec_transform(
                                    sem_val::<SK, SV, SC>(src_cfg.format, rr[i as int]),
                                ),
                            ));
                            assert(!all_transformed_encodable::<SK, SV, DK, DV, SC, DC, F>(
                                src_cfg.format,
                                dst_cfg.format,
                                f,
                                rr,
                            ));
                        }
                        return Err(ConvertError::SerializeError(e));
                    },
                };
                match dst_cfg.format {
                    Format::Text => file_line_of_remove(payload.as_slice(), &mut dst_int),
                    Format::Bin => bin_file_block_of_remove(payload.as_slice(), &mut dst_int),
                }
            },
        };
        proof {
            match dst_cfg.format {
                Format::Text => {
                    assert(bytes@ == crate::text_format::spec_text_line(
                        st_pre,
                        crate::text_format::spec_sig(trec),
                    ));
                    lemma_parse_text_snoc(dst_oi0, out0, trec, 1);
                },
                Format::Bin => {
                    assert(bytes@ == crate::bin_format::spec_bin_block(
                        st_pre,
                        crate::bin_format::spec_bin_sig(trec),
                    ));
                    lemma_parse_bin_snoc(dst_oi0, out0, trec, 1);
                },
            }
        }
        out.extend_from_slice(bytes.as_slice());
        proof {
            dst_recs = dst_recs.push(trec);
            assert(out@ == out0 + bytes@);
            assert(sem_of_rec::<DK, DV, DC>(dst_cfg.format, trec) == Some(
                tops@[i as int].deep_view(),
            ));
        }
        i += 1;
        proof {
            assert(forall|j: int|
                0 <= j < i - 1 ==> #[trigger] dst_recs[j] == dst_recs.drop_last()[j]);
            assert(dst_recs[i - 1] == trec);
        }
    }
    proof {
        let dst = converted_recs::<SK, SV, DK, DV, SC, DC, F>(
            src_cfg.format,
            dst_cfg.format,
            f,
            rr,
        );
        assert(dst_recs =~= dst);
    }
    Ok(out)
}


/// If every record from `i` on decodes, none is undecodable from `i` on.
proof fn lemma_first_undecodable_none_from<SK: DeepView, SV: DeepView, SC: KvCodec<SK, SV>>(
    fmt: Format,
    recs: Seq<RawRec>,
    i: int,
)
    requires
        forall|j: int|
            i <= j < recs.len() ==> sem_of_rec::<SK, SV, SC>(fmt, #[trigger] recs[j]) is Some,
    ensures
        first_undecodable::<SK, SV, SC>(fmt, recs, i) is None,
    decreases recs.len() - i,
{
    if 0 <= i < recs.len() {
        lemma_first_undecodable_none_from::<SK, SV, SC>(fmt, recs, i + 1);
    }
}

/// If the records before `i` decode and record `i` does not, `i` is the
/// first undecodable record.
proof fn lemma_first_undecodable_here<SK: DeepView, SV: DeepView, SC: KvCodec<SK, SV>>(
    fmt: Format,
    recs: Seq<RawRec>,
    i: int,
)
    requires
        0 <= i < recs.len(),
        sem_of_rec::<SK, SV, SC>(fmt, recs[i]) is None,
        forall|j: int|
            0 <= j < i ==> sem_of_rec::<SK, SV, SC>(fmt, #[trigger] recs[j]) is Some,
    ensures
        first_undecodable::<SK, SV, SC>(fmt, recs, 0) == Some(i),
{
    lemma_first_undecodable_here_from::<SK, SV, SC>(fmt, recs, 0, i);
}

proof fn lemma_first_undecodable_here_from<SK: DeepView, SV: DeepView, SC: KvCodec<SK, SV>>(
    fmt: Format,
    recs: Seq<RawRec>,
    s: int,
    i: int,
)
    requires
        0 <= s <= i < recs.len(),
        sem_of_rec::<SK, SV, SC>(fmt, recs[i]) is None,
        forall|j: int|
            s <= j < i ==> sem_of_rec::<SK, SV, SC>(fmt, #[trigger] recs[j]) is Some,
    ensures
        first_undecodable::<SK, SV, SC>(fmt, recs, s) == Some(i),
    decreases i - s,
{
    if s < i {
        lemma_first_undecodable_here_from::<SK, SV, SC>(fmt, recs, s + 1, i);
    }
}

} // verus!
