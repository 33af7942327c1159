//! The map-with-log wrapper: an in-memory container bound to an
//! append-only record log.
//!
//! The wrapper's invariant ties the three parts together: the accumulated
//! log bytes parse to exactly the records written, every record's payload
//! decodes, and replaying the decoded operations over the empty map gives
//! the current in-memory map.  Opening a store from a log re-establishes
//! the same invariant, which is what makes replay faithful.
//!
//! The wrapper never touches a file: it hands encoded bytes out through
//! [`MapWithFile::take_pending`], and whoever owns the file appends them
//! in order.

use vstd::prelude::*;
use core::marker::PhantomData;
use crate::cfg::{Cfg, Format};
use crate::integrity::{Integrity, IntegritySpec, oi_view};
use crate::format::{MapOperation, RawRecord, RawRec, recs_view, LoadFileError};
pub use crate::format::SerializedError;
use crate::map_trait::{DeepClone, KeyEq, MapTrait, entries_map};
use crate::codec::KvCodec;
use crate::text_format::{
    TextParse, parse_text, spec_text_line, spec_sig, load_from_text_file,
    text_file_line_of_insert, file_line_of_remove, lemma_parse_text_snoc,
};
use crate::bin_format::{
    BinParse, parse_bin, spec_bin_block, spec_bin_sig, load_from_bin_file,
    bin_file_block_of_insert, bin_file_block_of_remove, lemma_parse_bin_snoc,
};
use crate::encdec::subvec;
use crate::index::{Index, KeyExtractor, OrdKey};


verus! {

/// One operation applied to a mathematical map.
pub open spec fn apply_sem<KV, VV>(m: Map<KV, VV>, op: MapOperation<KV, VV>) -> Map<KV, VV> {
    match op {
        MapOperation::Insert(k, v) => m.insert(k, v),
        MapOperation::Remove(k) => m.remove(k),
    }
}

/// The map produced by replaying a sequence of operations over the empty
/// map, in order.
pub open spec fn replay_sem<KV, VV>(ops: Seq<MapOperation<KV, VV>>) -> Map<KV, VV>
    decreases ops.len(),
{
    if ops.len() == 0 {
        Map::empty()
    } else {
        apply_sem(replay_sem(ops.drop_last()), ops.last())
    }
}

/// What a record's payload decodes to under a format and codec, if
/// anything.
pub open spec fn sem_of_rec<K: DeepView, V: DeepView, C: KvCodec<K, V>>(
    fmt: Format,
    r: RawRec,
) -> Option<MapOperation<<K as DeepView>::V, <V as DeepView>::V>> {
    match r {
        RawRec::Insert(p) => match fmt {
            Format::Text => match C::text_pair_dec(p) {
                Some((k, v)) => Some(MapOperation::Insert(k, v)),
                None => None,
            },
            Format::Bin => match C::bin_pair_dec(p) {
                Some((k, v)) => Some(MapOperation::Insert(k, v)),
                None => None,
            },
        },
        RawRec::Remove(p) => match fmt {
            Format::Text => match C::text_key_dec(p) {
                Some(k) => Some(MapOperation::Remove(k)),
                None => None,
            },
            Format::Bin => match C::bin_key_dec(p) {
                Some(k) => Some(MapOperation::Remove(k)),
                None => None,
            },
        },
    }
}

/// The decoded operation of a record that does decode.
pub open spec fn sem_val<K: DeepView, V: DeepView, C: KvCodec<K, V>>(
    fmt: Format,
    r: RawRec,
) -> MapOperation<<K as DeepView>::V, <V as DeepView>::V> {
    match sem_of_rec::<K, V, C>(fmt, r) {
        Some(op) => op,
        None => arbitrary(),
    }
}

/// The first record of a sequence whose payload does not decode, from
/// `i` on.
pub open spec fn first_undecodable<K: DeepView, V: DeepView, C: KvCodec<K, V>>(
    fmt: Format,
    recs: Seq<RawRec>,
    i: int,
) -> Option<int>
    decreases recs.len() - i,
{
    if i < 0 || i >= recs.len() {
        None
    } else if sem_of_rec::<K, V, C>(fmt, recs[i]) is None {
        Some(i)
    } else {
        first_undecodable::<K, V, C>(fmt, recs, i + 1)
    }
}

/// The error reported when record `i` (0-based) does not decode.
pub open spec fn sem_err(fmt: Format, i: int) -> LoadFileError {
    match fmt {
        Format::Text => LoadFileError::DeserializeJsonError { line_num: (i + 1) as usize },
        Format::Bin => LoadFileError::DeserializeBincodeError { block_num: (i + 1) as usize },
    }
}

/// Whether the codec can produce an insert payload under a format.
pub open spec fn pair_encodable<K: DeepView, V: DeepView, C: KvCodec<K, V>>(
    fmt: Format,
    k: <K as DeepView>::V,
    v: <V as DeepView>::V,
) -> bool {
    match fmt {
        Format::Text => C::text_pair_encodable(k, v),
        Format::Bin => C::bin_pair_encodable(k, v),
    }
}

/// Whether the codec can produce a remove payload under a format.
pub open spec fn key_encodable<K: DeepView, V: DeepView, C: KvCodec<K, V>>(
    fmt: Format,
    k: <K as DeepView>::V,
) -> bool {
    match fmt {
        Format::Text => C::text_key_encodable(k),
        Format::Bin => C::bin_key_encodable(k),
    }
}

/// Whether the codec can produce an operation's payload under a format.
pub open spec fn op_encodable<K: DeepView, V: DeepView, C: KvCodec<K, V>>(
    fmt: Format,
    op: MapOperation<<K as DeepView>::V, <V as DeepView>::V>,
) -> bool {
    match op {
        MapOperation::Insert(k, v) => pair_encodable::<K, V, C>(fmt, k, v),
        MapOperation::Remove(k) => key_encodable::<K, V, C>(fmt, k),
    }
}

/// The record that writes an operation under a format and codec.
pub open spec fn op_rec<K: DeepView, V: DeepView, C: KvCodec<K, V>>(
    fmt: Format,
    op: MapOperation<<K as DeepView>::V, <V as DeepView>::V>,
) -> RawRec {
    match op {
        MapOperation::Insert(k, v) => match fmt {
            Format::Text => RawRec::Insert(C::text_pair(k, v)),
            Format::Bin => RawRec::Insert(C::bin_pair(k, v)),
        },
        MapOperation::Remove(k) => match fmt {
            Format::Text => RawRec::Remove(C::text_key(k)),
            Format::Bin => RawRec::Remove(C::bin_key(k)),
        },
    }
}

/// File based map: a wrapper of a map container that records every change
/// as a log record.  Restores its state from a log when created.
pub struct MapWithFile<K, V, M, C> {
    map: M,
    format: Format,
    integrity: Option<Integrity>,
    pending: Vec<u8>,
    log: Ghost<Seq<u8>>,
    recs: Ghost<Seq<RawRec>>,
    i0: Ghost<Option<IntegritySpec>>,
    taken: Ghost<int>,
    _codec: PhantomData<(K, V, C)>,
}

impl<
    K: KeyEq + DeepClone,
    V: DeepClone,
    M: MapTrait<K, V>,
    C: KvCodec<K, V>,
> MapWithFile<K, V, M, C> {
    /// What a record's payload decodes to under a format, if anything.
    pub open spec fn sem_of_rec(fmt: Format, r: RawRec) -> Option<
        MapOperation<<K as DeepView>::V, <V as DeepView>::V>,
    > {
        sem_of_rec::<K, V, C>(fmt, r)
    }

    /// The decoded operation of a record that does decode.
    pub open spec fn sem_val(fmt: Format, r: RawRec) -> MapOperation<
        <K as DeepView>::V,
        <V as DeepView>::V,
    > {
        sem_val::<K, V, C>(fmt, r)
    }

    /// The decoded operations of a record sequence.
    pub open spec fn sem_seq(fmt: Format, recs: Seq<RawRec>) -> Seq<
        MapOperation<<K as DeepView>::V, <V as DeepView>::V>,
    > {
        recs.map_values(|r: RawRec| Self::sem_val(fmt, r))
    }

    /// Every record decodes.
    pub open spec fn all_sem(fmt: Format, recs: Seq<RawRec>) -> bool {
        forall|i: int| 0 <= i < recs.len() ==> Self::sem_of_rec(fmt, #[trigger] recs[i]) is Some
    }

    /// The record an insert writes.
    pub open spec fn ins_rec(fmt: Format, k: <K as DeepView>::V, v: <V as DeepView>::V) -> RawRec {
        op_rec::<K, V, C>(fmt, MapOperation::Insert(k, v))
    }

    /// The record a remove writes.
    pub open spec fn rem_rec(fmt: Format, k: <K as DeepView>::V) -> RawRec {
        op_rec::<K, V, C>(fmt, MapOperation::Remove(k))
    }

    /// The bytes one record adds to the log, under a chain state.
    pub open spec fn rec_bytes(fmt: Format, st: Option<IntegritySpec>, r: RawRec) -> Seq<u8> {
        match fmt {
            Format::Text => spec_text_line(st, spec_sig(r)),
            Format::Bin => spec_bin_block(st, spec_bin_sig(r)),
        }
    }

    /// The in-memory map.
    pub closed spec fn view(&self) -> Map<<K as DeepView>::V, <V as DeepView>::V> {
        self.map.view()
    }

    /// All log bytes this store has seen: what was loaded at open plus
    /// every record encoded since.
    pub closed spec fn log(&self) -> Seq<u8> {
        self.log@
    }

    /// The records of the log, in order.
    pub closed spec fn recs(&self) -> Seq<RawRec> {
        self.recs@
    }

    /// The configured format.
    pub closed spec fn fmt(&self) -> Format {
        self.format
    }

    /// The integrity state the log started from.
    pub closed spec fn init_integrity(&self) -> Option<IntegritySpec> {
        self.i0@
    }

    /// The current chain state, after every record of the log.
    pub closed spec fn chain_state(&self) -> Option<IntegritySpec> {
        oi_view(self.integrity)
    }

    /// The encoded bytes not yet handed to the writer.
    pub closed spec fn pending_bytes(&self) -> Seq<u8> {
        self.pending@
    }

    /// The wrapper invariant: the log parses to the records, every record
    /// decodes, and replaying them gives the in-memory map.
    pub closed spec fn wf(&self) -> bool {
        &&& self.map.wf()
        &&& Self::all_sem(self.format, self.recs@)
        &&& self.map.view() == replay_sem(Self::sem_seq(self.format, self.recs@))
        &&& 0 <= self.taken@ <= self.log@.len()
        &&& self.pending@ == self.log@.skip(self.taken@)
        &&& match self.format {
            Format::Text => parse_text(self.i0@, self.log@, 1) == (TextParse {
                res: Ok::<_, LoadFileError>(self.recs@),
                st: oi_view(self.integrity),
            }),
            Format::Bin => parse_bin(self.i0@, self.log@, 1) == (BinParse {
                res: Ok::<_, LoadFileError>(self.recs@),
                st: oi_view(self.integrity),
            }),
        }
    }

    /// The parse outcome of a whole log under a format.
    pub open spec fn log_parse(fmt: Format, oi: Option<IntegritySpec>, c: Seq<u8>) -> Result<
        Seq<RawRec>,
        LoadFileError,
    > {
        match fmt {
            Format::Text => parse_text(oi, c, 1).res,
            Format::Bin => parse_bin(oi, c, 1).res,
        }
    }

    /// The first record whose payload does not decode, from `i` on.
    pub open spec fn first_undecodable(fmt: Format, recs: Seq<RawRec>, i: int) -> Option<int>
        decreases recs.len() - i,
    {
        first_undecodable::<K, V, C>(fmt, recs, i)
    }

    /// The error reported when record `i` (0-based) does not decode.
    pub open spec fn sem_err(fmt: Format, i: int) -> LoadFileError {
        sem_err(fmt, i)
    }

    /// Builds a store from the content of a log: parses every record,
    /// verifies integrity, decodes each payload and replays the
    /// operations over an empty container.  On any error the log's
    /// 1-based record index is reported: a parse or integrity error as
    /// the loader met it, a payload that does not decode as a
    /// deserialization error.
    #[verifier::loop_isolation(false)]
    pub fn open_from_log(content: Vec<u8>, cfg: Cfg) -> (r: Result<Self, LoadFileError>)
        ensures
            match r {
                Ok(s) => {
                    &&& s.wf()
                    &&& s.fmt() == cfg.format
                    &&& s.init_integrity() == oi_view(cfg.integrity)
                    &&& s.log() == content@
                    &&& s.pending_bytes() == Seq::<u8>::empty()
                    &&& Self::log_parse(cfg.format, oi_view(cfg.integrity), content@) == Ok::<
                        _,
                        LoadFileError,
                    >(s.recs())
                    &&& s.view() == replay_sem(Self::sem_seq(cfg.format, s.recs()))
                },
                Err(e) => match Self::log_parse(cfg.format, oi_view(cfg.integrity), content@) {
                    Err(pe) => e == pe,
                    Ok(recs) => Self::first_undecodable(cfg.format, recs, 0) matches Some(i)
                        && e == Self::sem_err(cfg.format, i),
                },
            },
    {
        let mut integrity = cfg.integrity;
        let ghost oi0 = oi_view(integrity);
        let loaded = match cfg.format {
            Format::Text => load_from_text_file(content.as_slice(), &mut integrity),
            Format::Bin => load_from_bin_file(content.as_slice(), &mut integrity),
        };
        let raws = match loaded {
            Ok(v) => v,
            Err(e) => {
                return Err(e);
            },
        };
        let ghost rr = recs_view(raws@);
        let mut m = M::empty();
        let mut idx: usize = 0;
        while idx < raws.len()
            invariant
                idx <= raws@.len(),
                m.wf(),
                rr == recs_view(raws@),
                forall|j: int|
                    0 <= j < idx ==> Self::sem_of_rec(cfg.format, #[trigger] rr[j]) is Some,
                m.view() == replay_sem(Self::sem_seq(cfg.format, rr.take(idx as int))),
            decreases raws@.len() - idx,
        {
            let ghost prefix = Self::sem_seq(cfg.format, rr.take(idx as int));
            let op: MapOperation<K, V> = match &raws[idx] {
                RawRecord::Insert(p) => {
                    let dec = match cfg.format {
                        Format::Text => C::dec_pair_text(p.as_slice()),
                        Format::Bin => C::dec_pair_bin(p.as_slice()),
                    };
                    match dec {
                        Some((k, v)) => MapOperation::Insert(k, v),
                        None => {
                            proof {
                                lemma_first_undecodable_at::<K, V, M, C>(
                                    cfg.format,
                                    rr,
                                    idx as int,
                                );
                            }
                            return Err(match cfg.format {
                                Format::Text => LoadFileError::DeserializeJsonError {
                                    line_num: idx + 1,
                                },
                                Format::Bin => LoadFileError::DeserializeBincodeError {
                                    block_num: idx + 1,
                                },
                            });
                        },
                    }
                },
                RawRecord::Remove(p) => {
                    let dec = match cfg.format {
                        Format::Text => C::dec_key_text(p.as_slice()),
                        Format::Bin => C::dec_key_bin(p.as_slice()),
                    };
                    match dec {
                        Some(k) => MapOperation::Remove(k),
                        None => {
                            proof {
                                lemma_first_undecodable_at::<K, V, M, C>(
                                    cfg.format,
                                    rr,
                                    idx as int,
                                );
                            }
                            return Err(match cfg.format {
                                Format::Text => LoadFileError::DeserializeJsonError {
                                    line_num: idx + 1,
                                },
                                Format::Bin => LoadFileError::DeserializeBincodeError {
                                    block_num: idx + 1,
                                },
                            });
                        },
                    }
                },
            };
            match op {
                MapOperation::Insert(k, v) => {
                    m.insert(k, v);
                },
                MapOperation::Remove(k) => {
                    m.remove(&k);
                },
            }
            idx += 1;
            proof {
                assert(rr.take(idx as int).drop_last() =~= rr.take(idx as int - 1));
                assert(Self::sem_seq(cfg.format, rr.take(idx as int)).drop_last()
                    =~= Self::sem_seq(cfg.format, rr.take(idx as int - 1)));
            }
        }
        proof {
            assert(rr.take(raws@.len() as int) =~= rr);
            lemma_first_undecodable_none::<K, V, M, C>(cfg.format, rr, 0);
        }
        let s = MapWithFile {
            map: m,
            format: cfg.format,
            integrity,
            pending: Vec::new(),
            log: Ghost(content@),
            recs: Ghost(rr),
            i0: Ghost(oi0),
            taken: Ghost(content@.len() as int),
            _codec: PhantomData,
        };
        proof {
            assert(s.pending@ =~= s.log@.skip(s.taken@));
        }
        Ok(s)
    }

    /// Replay fidelity: the log a store has accumulated, loaded under the
    /// configuration the store started from, parses to exactly the
    /// store's records, all of them decode, and replaying them over the
    /// empty map yields the store's in-memory map.  Together with the
    /// contract of [`MapWithFile::open_from_log`], closing a store and
    /// opening its log again rebuilds the same map.
    pub proof fn lemma_replay_fidelity(&self)
        requires
            self.wf(),
        ensures
            Self::log_parse(self.fmt(), self.init_integrity(), self.log()) == Ok::<
                _,
                LoadFileError,
            >(self.recs()),
            Self::all_sem(self.fmt(), self.recs()),
            self.view() == replay_sem(Self::sem_seq(self.fmt(), self.recs())),
    {
    }

    /// History compaction: re-encodes the current map as one insert
    /// record per live key, under a fresh integrity seed, and returns the
    /// complete content of the new log.  The caller replaces the log file
    /// with these bytes; the store continues on the new log.  Succeeds
    /// whenever every live binding is encodable - in particular on an
    /// empty map; on a serialization error nothing is changed.
    #[verifier::loop_isolation(false)]
    #[verifier::rlimit(100)]
    pub fn remove_history(&mut self, new_integrity: Option<Integrity>) -> (r: Result<
        Vec<u8>,
        SerializedError,
    >)
        requires
            old(self).wf(),
        ensures
            (forall|k: <K as DeepView>::V|
                #[trigger] old(self).view().contains_key(k) ==> pair_encodable::<K, V, C>(
                    old(self).fmt(),
                    k,
                    old(self).view()[k],
                )) ==> r is Ok,
            match r {
                Ok(bytes) => {
                    &&& final(self).wf()
                    &&& final(self).view() == old(self).view()
                    &&& final(self).fmt() == old(self).fmt()
                    &&& final(self).init_integrity() == oi_view(new_integrity)
                    &&& final(self).log() == bytes@
                    &&& final(self).pending_bytes() == Seq::<u8>::empty()
                    &&& forall|i: int|
                        0 <= i < final(self).recs().len() ==> final(self).recs()[i] is Insert
                },
                Err(_) => old(self).view() != Map::<
                    <K as DeepView>::V,
                    <V as DeepView>::V,
                >::empty() && *final(self) == *old(self),
            },
    {
        let entries = self.map.entries();
        let mut next_int = new_integrity;
        let ghost oi0 = oi_view(new_integrity);
        let mut out: Vec<u8> = Vec::new();
        let ghost mut recs2: Seq<RawRec> = Seq::empty();
        let mut i: usize = 0;
        proof {
            assert(replay_sem(Self::sem_seq(self.format, recs2)) =~= entries_map(
                entries@.take(0),
            ));
            match self.format {
                Format::Text => {
                    assert(parse_text(oi0, out@, 1) == (TextParse {
                        res: Ok::<_, LoadFileError>(recs2),
                        st: oi_view(next_int),
                    }));
                },
                Format::Bin => {
                    assert(parse_bin(oi0, out@, 1) == (BinParse {
                        res: Ok::<_, LoadFileError>(recs2),
                        st: oi_view(next_int),
                    }));
                },
            }
        }
        while i < entries.len()
            invariant
                i <= entries@.len(),
                recs2.len() == i,
                Self::all_sem(self.format, recs2),
                replay_sem(Self::sem_seq(self.format, recs2)) == entries_map(
                    entries@.take(i as int),
                ),
                forall|j: int| 0 <= j < i ==> recs2[j] is Insert,
                match self.format {
                    Format::Text => parse_text(oi0, out@, 1) == (TextParse {
                        res: Ok::<_, LoadFileError>(recs2),
                        st: oi_view(next_int),
                    }),
                    Format::Bin => parse_bin(oi0, out@, 1) == (BinParse {
                        res: Ok::<_, LoadFileError>(recs2),
                        st: oi_view(next_int),
                    }),
                },
            decreases entries@.len() - i,
        {
            let enc = match self.format {
                Format::Text => C::enc_pair_text(&entries[i].0, &entries[i].1),
                Format::Bin => C::enc_pair_bin(&entries[i].0, &entries[i].1),
            };
            let payload = match enc {
                Ok(p) => p,
                Err(e) => {
                    proof {
                        // an encoder is reached only over a live binding,
                        // and it fails only on an unencodable one
                        let kw = entries@[i as int].0.deep_view();
                        assert(self.view().contains_key(kw));
                        assert(self.view()[kw] == entries@[i as int].1.deep_view());
                        assert(!pair_encodable::<K, V, C>(self.format, kw, self.view()[kw]));
                        assert(self.view() != Map::<
                            <K as DeepView>::V,
                            <V as DeepView>::V,
                        >::empty());
                    }
                    return Err(e);
                },
            };
            let ghost rec = Self::ins_rec(
                self.format,
                entries@[i as int].0.deep_view(),
                entries@[i as int].1.deep_view(),
            );
            let ghost out0 = out@;
            let ghost st_pre = oi_view(next_int);
            let bytes = match self.format {
                Format::Text => text_file_line_of_insert(payload.as_slice(), &mut next_int),
                Format::Bin => bin_file_block_of_insert(payload.as_slice(), &mut next_int),
            };
            proof {
                match self.format {
                    Format::Text => {
                        assert(bytes@ == spec_text_line(st_pre, spec_sig(rec)));
                        lemma_parse_text_snoc(oi0, out0, rec, 1);
                    },
                    Format::Bin => {
                        assert(bytes@ == spec_bin_block(st_pre, spec_bin_sig(rec)));
                        lemma_parse_bin_snoc(oi0, out0, rec, 1);
                    },
                }
            }
            out.extend_from_slice(bytes.as_slice());
            i += 1;
            proof {
                assert(out@ == out0 + bytes@);
                let prev = recs2;
                recs2 = prev.push(rec);
                assert(recs2.drop_last() =~= prev);
                let kdv = entries@[i as int - 1].0.deep_view();
                let vdv = entries@[i as int - 1].1.deep_view();
                assert(Self::sem_of_rec(self.format, rec) == Some(
                    MapOperation::Insert(kdv, vdv),
                ));
                assert(Self::sem_seq(self.format, recs2).drop_last() =~= Self::sem_seq(
                    self.format,
                    prev,
                ));
                assert(Self::sem_seq(self.format, recs2).last() == Self::sem_val(
                    self.format,
                    rec,
                ));
                assert(replay_sem(Self::sem_seq(self.format, recs2)) == apply_sem(
                    replay_sem(Self::sem_seq(self.format, prev)),
                    MapOperation::Insert(kdv, vdv),
                ));
                crate::map_trait::lemma_entries_map_take_step(entries@, i as int - 1);
                assert(entries_map(entries@.take(i as int)) == entries_map(
                    entries@.take(i as int - 1),
                ).insert(kdv, vdv));
            }
        }
        proof {
            assert(entries@.take(entries@.len() as int) =~= entries@);
            crate::map_trait::lemma_entries_match_map(entries@, self.view());
        }
        self.integrity = next_int;
        self.pending = Vec::new();
        proof {
            self.log@ = out@;
            self.recs@ = recs2;
            self.i0@ = oi0;
            self.taken@ = out@.len() as int;
            assert(self.pending@ =~= self.log@.skip(self.taken@));
        }
        Ok(out)
    }

    /// Takes the store apart: the container and the integrity state the
    /// chain reached.
    pub fn into_parts(self) -> (r: (M, Option<Integrity>))
        requires
            self.wf(),
        ensures
            r.0.wf(),
            r.0.view() == self.view(),
            oi_view(r.1) == self.chain_state(),
    {
        let MapWithFile { map, integrity, .. } = self;
        (map, integrity)
    }

    /// Returns a reference to the value corresponding to the key; reads
    /// the memory alone, never the log.
    pub fn get(&self, key: &K) -> (r: Option<&V>)
        requires
            self.wf(),
        ensures
            match r {
                Some(v) => self.view().contains_key(key.deep_view()) && v.deep_view()
                    == self.view()[key.deep_view()],
                None => !self.view().contains_key(key.deep_view()),
            },
    {
        self.map.get(key)
    }

    /// Returns a reference to the wrapped container, for the read
    /// operations it offers.
    pub fn map(&self) -> (r: &M)
        requires
            self.wf(),
        ensures
            r.wf(),
            r.view() == self.view(),
    {
        &self.map
    }

    /// Hands out the encoded bytes not yet written; the caller appends
    /// them to the log file, in order.
    pub fn take_pending(&mut self) -> (r: Vec<u8>)
        requires
            old(self).wf(),
        ensures
            final(self).wf(),
            r@ == old(self).pending_bytes(),
            final(self).pending_bytes() == Seq::<u8>::empty(),
            final(self).view() == old(self).view(),
            final(self).log() == old(self).log(),
            final(self).recs() == old(self).recs(),
            final(self).fmt() == old(self).fmt(),
            final(self).init_integrity() == old(self).init_integrity(),
            final(self).chain_state() == old(self).chain_state(),
    {
        let r = subvec(self.pending.as_slice(), 0, self.pending.len());
        self.pending.clear();
        proof {
            self.taken@ = self.log@.len() as int;
            assert(r@ =~= old(self).pending@);
            assert(self.pending@ =~= self.log@.skip(self.taken@));
        }
        r
    }

    /// Inserts a key-value pair into the map and appends one insert
    /// record to the log.  Succeeds whenever the codec can encode the
    /// pair; on a serialization error nothing is changed and no record
    /// is produced.
    pub fn insert(&mut self, key: K, value: V) -> (r: Result<Option<V>, SerializedError>)
        requires
            old(self).wf(),
        ensures
            final(self).fmt() == old(self).fmt(),
            final(self).init_integrity() == old(self).init_integrity(),
            pair_encodable::<K, V, C>(old(self).fmt(), key.deep_view(), value.deep_view())
                ==> r is Ok,
            match r {
                Ok(old_v) => {
                    &&& final(self).wf()
                    &&& final(self).view() == old(self).view().insert(
                        key.deep_view(),
                        value.deep_view(),
                    )
                    &&& final(self).recs() == old(self).recs().push(
                        Self::ins_rec(old(self).fmt(), key.deep_view(), value.deep_view()),
                    )
                    &&& final(self).log() == old(self).log() + Self::rec_bytes(
                        old(self).fmt(),
                        old(self).chain_state(),
                        Self::ins_rec(old(self).fmt(), key.deep_view(), value.deep_view()),
                    )
                    &&& final(self).pending_bytes() == old(self).pending_bytes()
                        + Self::rec_bytes(
                        old(self).fmt(),
                        old(self).chain_state(),
                        Self::ins_rec(old(self).fmt(), key.deep_view(), value.deep_view()),
                    )
                    &&& match old_v {
                        Some(v) => old(self).view().contains_key(key.deep_view())
                            && v.deep_view() == old(self).view()[key.deep_view()],
                        None => !old(self).view().contains_key(key.deep_view()),
                    }
                },
                Err(_) => *final(self) == *old(self),
            },
    {
        let enc = match self.format {
            Format::Text => C::enc_pair_text(&key, &value),
            Format::Bin => C::enc_pair_bin(&key, &value),
        };
        let payload = match enc {
            Ok(p) => p,
            Err(e) => {
                return Err(e);
            },
        };
        let ghost rec = Self::ins_rec(self.format, key.deep_view(), value.deep_view());
        let bytes = match self.format {
            Format::Text => text_file_line_of_insert(payload.as_slice(), &mut self.integrity),
            Format::Bin => bin_file_block_of_insert(payload.as_slice(), &mut self.integrity),
        };
        proof {
            match old(self).format {
                Format::Text => {
                    lemma_parse_text_snoc(self.i0@, self.log@, rec, 1);
                },
                Format::Bin => {
                    lemma_parse_bin_snoc(self.i0@, self.log@, rec, 1);
                },
            }
        }
        let old_v = self.map.insert(key, value);
        self.pending.extend_from_slice(bytes.as_slice());
        proof {
            self.log@ = self.log@ + bytes@;
            self.recs@ = self.recs@.push(rec);
            assert(self.pending@ =~= self.log@.skip(self.taken@));
            assert(Self::sem_seq(self.format, self.recs@).drop_last() =~= Self::sem_seq(
                self.format,
                old(self).recs@,
            ));
            assert(Self::sem_seq(self.format, self.recs@).last() == Self::sem_val(
                self.format,
                rec,
            ));
            assert(forall|j: int|
                0 <= j < old(self).recs@.len() ==> self.recs@[j] == old(self).recs@[j]);
        }
        Ok(old_v)
    }

    /// Removes a key from the map.  A remove record is appended only when
    /// the key was present; removing an absent key changes nothing,
    /// writes nothing, and always succeeds.  A serialization error can
    /// arise only for a present key the codec cannot encode, and then
    /// nothing is changed.
    pub fn remove(&mut self, key: &K) -> (r: Result<Option<V>, SerializedError>)
        requires
            old(self).wf(),
        ensures
            final(self).fmt() == old(self).fmt(),
            final(self).init_integrity() == old(self).init_integrity(),
            key_encodable::<K, V, C>(old(self).fmt(), key.deep_view()) ==> r is Ok,
            match r {
                Ok(old_v) => match old_v {
                    Some(v) => {
                        &&& final(self).wf()
                        &&& old(self).view().contains_key(key.deep_view())
                        &&& v.deep_view() == old(self).view()[key.deep_view()]
                        &&& final(self).view() == old(self).view().remove(key.deep_view())
                        &&& final(self).recs() == old(self).recs().push(
                            Self::rem_rec(old(self).fmt(), key.deep_view()),
                        )
                        &&& final(self).log() == old(self).log() + Self::rec_bytes(
                            old(self).fmt(),
                            old(self).chain_state(),
                            Self::rem_rec(old(self).fmt(), key.deep_view()),
                        )
                        &&& final(self).pending_bytes() == old(self).pending_bytes()
                            + Self::rec_bytes(
                            old(self).fmt(),
                            old(self).chain_state(),
                            Self::rem_rec(old(self).fmt(), key.deep_view()),
                        )
                    },
                    None => !old(self).view().contains_key(key.deep_view()) && *final(self)
                        == *old(self),
                },
                Err(_) => old(self).view().contains_key(key.deep_view()) && *final(self)
                    == *old(self),
            },
    {
        let present = match self.map.get(key) {
            Some(_) => true,
            None => false,
        };
        if !present {
            return Ok(None);
        }
        let enc = match self.format {
            Format::Text => C::enc_key_text(key),
            Format::Bin => C::enc_key_bin(key),
        };
        let payload = match enc {
            Ok(p) => p,
            Err(e) => {
                return Err(e);
            },
        };
        let ghost rec = Self::rem_rec(self.format, key.deep_view());
        let bytes = match self.format {
            Format::Text => file_line_of_remove(payload.as_slice(), &mut self.integrity),
            Format::Bin => bin_file_block_of_remove(payload.as_slice(), &mut self.integrity),
        };
        proof {
            match old(self).format {
                Format::Text => {
                    lemma_parse_text_snoc(self.i0@, self.log@, rec, 1);
                },
                Format::Bin => {
                    lemma_parse_bin_snoc(self.i0@, self.log@, rec, 1);
                },
            }
        }
        let old_v = self.map.remove(key);
        self.pending.extend_from_slice(bytes.as_slice());
        proof {
            self.log@ = self.log@ + bytes@;
            self.recs@ = self.recs@.push(rec);
            assert(self.pending@ =~= self.log@.skip(self.taken@));
            assert(Self::sem_seq(self.format, self.recs@).drop_last() =~= Self::sem_seq(
                self.format,
                old(self).recs@,
            ));
            assert(Self::sem_seq(self.format, self.recs@).last() == Self::sem_val(
                self.format,
                rec,
            ));
            assert(forall|j: int|
                0 <= j < old(self).recs@.len() ==> self.recs@[j] == old(self).recs@[j]);
        }
        Ok(old_v)
    }
}

impl<
    K: KeyEq + DeepClone,
    V: DeepClone,
    M: MapTrait<K, V>,
    C: KvCodec<K, V>,
> MapWithFile<K, V, M, C> {
    /// Creates an index over the live map by one pass over its entries.
    /// `extract` is applied to every value, on creation and on every
    /// later indexed mutation, to derive the index key.
    pub fn create_index<IK: KeyEq + DeepClone, E: KeyExtractor<V, IK>>(&self, extract: E) -> (r:
        Index<IK, K, V, E>) where K: OrdKey
        requires
            self.wf(),
        ensures
            r.wf(),
            r.consistent_with(self.view()),
            forall|v: <V as DeepView>::V| #[trigger] r.key_of(v) == extract.key_spec(v),
    {
        let entries = self.map.entries();
        let r = Index::build_from(&entries, extract);
        proof {
            crate::map_trait::lemma_entries_match_map(entries@, self.view());
        }
        r
    }

    /// Creates an index ordered by the index key; see
    /// [`MapWithFile::create_index`].
    pub fn create_btree_index<IK: KeyEq + DeepClone, E: KeyExtractor<V, IK>>(&self, extract: E)
        -> (r: Index<IK, K, V, E>) where K: OrdKey
        requires
            self.wf(),
        ensures
            r.wf(),
            r.consistent_with(self.view()),
            forall|v: <V as DeepView>::V| #[trigger] r.key_of(v) == extract.key_spec(v),
    {
        self.create_index(extract)
    }

    /// Creates an index addressed by hashed lookup of the index key; see
    /// [`MapWithFile::create_index`].
    pub fn create_hashmap_index<IK: KeyEq + DeepClone, E: KeyExtractor<V, IK>>(&self, extract: E)
        -> (r: Index<IK, K, V, E>) where K: OrdKey
        requires
            self.wf(),
        ensures
            r.wf(),
            r.consistent_with(self.view()),
            forall|v: <V as DeepView>::V| #[trigger] r.key_of(v) == extract.key_spec(v),
    {
        self.create_index(extract)
    }

    /// Inserts a key-value pair and fans the change out to a live index
    /// before anything further happens: when this returns, the map, the
    /// log record and the index agree.
    pub fn insert_indexed<IK: KeyEq + DeepClone, E: KeyExtractor<V, IK>>(
        &mut self,
        idx: &mut Index<IK, K, V, E>,
        key: K,
        value: V,
    ) -> (r: Result<Option<V>, SerializedError>) where K: OrdKey
        requires
            old(self).wf(),
            old(idx).wf(),
            old(idx).consistent_with(old(self).view()),
        ensures
            final(self).fmt() == old(self).fmt(),
            final(self).init_integrity() == old(self).init_integrity(),
            final(idx).wf(),
            final(idx).consistent_with(final(self).view()),
            forall|v: <V as DeepView>::V|
                #[trigger] final(idx).key_of(v) == old(idx).key_of(v),
            r is Err ==> *final(idx) == *old(idx),
            pair_encodable::<K, V, C>(old(self).fmt(), key.deep_view(), value.deep_view())
                ==> r is Ok,
            match r {
                Ok(old_v) => {
                    &&& final(self).wf()
                    &&& final(self).view() == old(self).view().insert(
                        key.deep_view(),
                        value.deep_view(),
                    )
                    &&& final(self).recs() == old(self).recs().push(
                        Self::ins_rec(old(self).fmt(), key.deep_view(), value.deep_view()),
                    )
                    &&& match old_v {
                        Some(v) => old(self).view().contains_key(key.deep_view())
                            && v.deep_view() == old(self).view()[key.deep_view()],
                        None => !old(self).view().contains_key(key.deep_view()),
                    }
                },
                Err(_) => *final(self) == *old(self),
            },
    {
        let kc = key.deep_clone();
        let vc = value.deep_clone();
        let ghost m0 = self.view();
        let r = self.insert(key, value);
        match r {
            Ok(old_v) => {
                let oc = match &old_v {
                    Some(v) => Some(v.deep_clone()),
                    None => None,
                };
                idx.on_insert(Ghost(m0), kc, vc, oc);
                Ok(old_v)
            },
            Err(e) => Err(e),
        }
    }

    /// Removes a key and fans the change out to a live index; the index
    /// update happens only when a record is written.
    pub fn remove_indexed<IK: KeyEq + DeepClone, E: KeyExtractor<V, IK>>(
        &mut self,
        idx: &mut Index<IK, K, V, E>,
        key: &K,
    ) -> (r: Result<Option<V>, SerializedError>) where K: OrdKey
        requires
            old(self).wf(),
            old(idx).wf(),
            old(idx).consistent_with(old(self).view()),
        ensures
            final(self).fmt() == old(self).fmt(),
            final(self).init_integrity() == old(self).init_integrity(),
            final(idx).wf(),
            final(idx).consistent_with(final(self).view()),
            forall|v: <V as DeepView>::V|
                #[trigger] final(idx).key_of(v) == old(idx).key_of(v),
            r is Err ==> *final(idx) == *old(idx),
            (r matches Ok(old_v) && old_v is None) ==> *final(idx) == *old(idx),
            key_encodable::<K, V, C>(old(self).fmt(), key.deep_view()) ==> r is Ok,
            match r {
                Ok(old_v) => match old_v {
                    Some(v) => {
                        &&& final(self).wf()
                        &&& old(self).view().contains_key(key.deep_view())
                        &&& v.deep_view() == old(self).view()[key.deep_view()]
                        &&& final(self).view() == old(self).view().remove(key.deep_view())
                        &&& final(self).recs() == old(self).recs().push(
                            Self::rem_rec(old(self).fmt(), key.deep_view()),
                        )
                    },
                    None => !old(self).view().contains_key(key.deep_view()) && *final(self)
                        == *old(self),
                },
                Err(_) => old(self).view().contains_key(key.deep_view()) && *final(self)
                    == *old(self),
            },
    {
        let ghost m0 = self.view();
        let r = self.remove(key);
        match r {
            Ok(old_v) => {
                match &old_v {
                    Some(v) => {
                        idx.on_remove(Ghost(m0), key, v);
                    },
                    None => {},
                }
                Ok(old_v)
            },
            Err(e) => Err(e),
        }
    }
}

/// Loads a whole text log into a fresh container: parses and verifies
/// every record, decodes and replays it.  The chain seed is advanced to
/// the state after the last record; on an error it is left unchanged and
/// the error carries the 1-based record index.
pub fn map_from_text_file<
    K: KeyEq + DeepClone,
    V: DeepClone,
    M: MapTrait<K, V>,
    C: KvCodec<K, V>,
>(content: Vec<u8>, integrity: &mut Option<Integrity>) -> (r: Result<M, LoadFileError>)
    ensures
        match r {
            Ok(m) => {
                let p = parse_text(oi_view(*old(integrity)), content@, 1);
                &&& m.wf()
                &&& p.res is Ok
                &&& MapWithFile::<K, V, M, C>::all_sem(Format::Text, p.res->Ok_0)
                &&& m.view() == replay_sem(
                    MapWithFile::<K, V, M, C>::sem_seq(Format::Text, p.res->Ok_0),
                )
                &&& oi_view(*final(integrity)) == p.st
            },
            Err(e) => {
                &&& *final(integrity) == *old(integrity)
                &&& match MapWithFile::<K, V, M, C>::log_parse(
                    Format::Text,
                    oi_view(*old(integrity)),
                    content@,
                ) {
                    Err(pe) => e == pe,
                    Ok(recs) => MapWithFile::<K, V, M, C>::first_undecodable(
                        Format::Text,
                        recs,
                        0,
                    ) matches Some(i) && e == MapWithFile::<K, V, M, C>::sem_err(
                        Format::Text,
                        i,
                    ),
                }
            },
        },
{
    let cfg = Cfg { format: Format::Text, integrity: *integrity };
    match MapWithFile::<K, V, M, C>::open_from_log(content, cfg) {
        Ok(s) => {
            proof {
                s.lemma_replay_fidelity();
            }
            let (m, fint) = s.into_parts();
            *integrity = fint;
            Ok(m)
        },
        Err(e) => Err(e),
    }
}

/// Loads a whole binary log into a fresh container: parses and verifies
/// every record, decodes and replays it.  The chain seed is advanced to
/// the state after the last record; on an error it is left unchanged and
/// the error carries the 1-based record index.
pub fn map_from_bin_file<
    K: KeyEq + DeepClone,
    V: DeepClone,
    M: MapTrait<K, V>,
    C: KvCodec<K, V>,
>(content: Vec<u8>, integrity: &mut Option<Integrity>) -> (r: Result<M, LoadFileError>)
    ensures
        match r {
            Ok(m) => {
                let p = parse_bin(oi_view(*old(integrity)), content@, 1);
                &&& m.wf()
                &&& p.res is Ok
                &&& MapWithFile::<K, V, M, C>::all_sem(Format::Bin, p.res->Ok_0)
                &&& m.view() == replay_sem(
                    MapWithFile::<K, V, M, C>::sem_seq(Format::Bin, p.res->Ok_0),
                )
                &&& oi_view(*final(integrity)) == p.st
            },
            Err(e) => {
                &&& *final(integrity) == *old(integrity)
                &&& match MapWithFile::<K, V, M, C>::log_parse(
                    Format::Bin,
                    oi_view(*old(integrity)),
                    content@,
                ) {
                    Err(pe) => e == pe,
                    Ok(recs) => MapWithFile::<K, V, M, C>::first_undecodable(
                        Format::Bin,
                        recs,
                        0,
                    ) matches Some(i) && e == MapWithFile::<K, V, M, C>::sem_err(
                        Format::Bin,
                        i,
                    ),
                }
            },
        },
{
    let cfg = Cfg { format: Format::Bin, integrity: *integrity };
    match MapWithFile::<K, V, M, C>::open_from_log(content, cfg) {
        Ok(s) => {
            proof {
                s.lemma_replay_fidelity();
            }
            let (m, fint) = s.into_parts();
            *integrity = fint;
            Ok(m)
        },
        Err(e) => Err(e),
    }
}

/// If every record up to the end decodes, there is no undecodable one.
proof fn lemma_first_undecodable_none<
    K: KeyEq + DeepClone,
    V: DeepClone,
    M: MapTrait<K, V>,
    C: KvCodec<K, V>,
>(fmt: Format, recs: Seq<RawRec>, i: int)
    requires
        forall|j: int|
            i <= j < recs.len() ==> MapWithFile::<K, V, M, C>::sem_of_rec(
                fmt,
                #[trigger] recs[j],
            ) is Some,
    ensures
        MapWithFile::<K, V, M, C>::first_undecodable(fmt, recs, i) is None,
    decreases recs.len() - i,
{
    if 0 <= i < recs.len() {
        lemma_first_undecodable_none::<K, V, M, C>(fmt, recs, i + 1);
    }
}

/// If the records before `i` decode and record `i` does not, `i` is the
/// first undecodable record.
proof fn lemma_first_undecodable_at<
    K: KeyEq + DeepClone,
    V: DeepClone,
    M: MapTrait<K, V>,
    C: KvCodec<K, V>,
>(fmt: Format, recs: Seq<RawRec>, i: int)
    requires
        0 <= i < recs.len(),
        MapWithFile::<K, V, M, C>::sem_of_rec(fmt, recs[i]) is None,
        forall|j: int|
            0 <= j < i ==> MapWithFile::<K, V, M, C>::sem_of_rec(
                fmt,
                #[trigger] recs[j],
            ) is Some,
    ensures
        MapWithFile::<K, V, M, C>::first_undecodable(fmt, recs, 0) == Some(i),
{
    lemma_first_undecodable_from::<K, V, M, C>(fmt, recs, 0, i);
}

proof fn lemma_first_undecodable_from<
    K: KeyEq + DeepClone,
    V: DeepClone,
    M: MapTrait<K, V>,
    C: KvCodec<K, V>,
>(fmt: Format, recs: Seq<RawRec>, s: int, i: int)
    requires
        0 <= s <= i < recs.len(),
        MapWithFile::<K, V, M, C>::sem_of_rec(fmt, recs[i]) is None,
        forall|j: int|
            s <= j < i ==> MapWithFile::<K, V, M, C>::sem_of_rec(
                fmt,
                #[trigger] recs[j],
            ) is Some,
    ensures
        MapWithFile::<K, V, M, C>::first_undecodable(fmt, recs, s) == Some(i),
    decreases i - s,
{
    if s < i {
        lemma_first_undecodable_from::<K, V, M, C>(fmt, recs, s + 1, i);
    }
}

} // verus!
