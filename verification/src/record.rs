//! Resource records and their typed rdata: address records carried as
//! plain integers, name-bearing records (NS, CNAME), and SOA. A
//! record's rdata must occupy exactly its declared rdlength; since
//! compression can legally shrink an encoded name, the check compares
//! cursor positions rather than raw byte counts, and a mismatch is a
//! length-consistency failure distinct from a plain decode failure.

use vstd::prelude::*;

use crate::common::{FlagRecordType, ParseContext, SerializeContext};
use crate::errors::ParseError;
use crate::labels::{
    parse_labels_at, spec_parse_labels, spec_ser_labels, wf_labels, LabelSeq, Labels,
};
use crate::{
    spec_be16, spec_be32, spec_be128, spec_u128_at, spec_u16_of_bytes, spec_u32_of_bytes,
    u16_of_bytes, u32_of_bytes,
};

verus! {

/// The mathematical content of an SOA rdata.
pub struct SoaView {
    pub mname: Labels,
    pub rname: Labels,
    pub serial: u32,
    pub refresh: u32,
    pub retry: u32,
    pub expire: u32,
    pub minimum: u32,
}

/// A start-of-authority rdata: two names and five 32-bit values.
#[derive(Debug)]
pub struct SOARecord {
    pub mname: LabelSeq,
    pub rname: LabelSeq,
    pub serial: u32,
    pub refresh: u32,
    pub retry: u32,
    pub expire: u32,
    pub minimum: u32,
}

impl View for SOARecord {
    type V = SoaView;

    open spec fn view(&self) -> SoaView {
        SoaView {
            mname: self.mname@,
            rname: self.rname@,
            serial: self.serial,
            refresh: self.refresh,
            retry: self.retry,
            expire: self.expire,
            minimum: self.minimum,
        }
    }
}

impl Clone for SOARecord {
    fn clone(&self) -> (r: Self)
        ensures
            r@ == self@,
    {
        SOARecord {
            mname: self.mname.clone(),
            rname: self.rname.clone(),
            serial: self.serial,
            refresh: self.refresh,
            retry: self.retry,
            expire: self.expire,
            minimum: self.minimum,
        }
    }
}

/// The mathematical content of a record's typed rdata. Addresses are
/// carried as plain big-endian integers.
pub enum RdataView {
    A(u32),
    NS(Labels),
    CNAME(Labels),
    AAAA(u128),
    SOA(SoaView),
}

/// A record's typed rdata.
#[derive(Debug)]
pub enum ResourceData {
    A(u32),
    NS(LabelSeq),
    CNAME(LabelSeq),
    AAAA(u128),
    SOA(SOARecord),
}

impl View for ResourceData {
    type V = RdataView;

    open spec fn view(&self) -> RdataView {
        match self {
            ResourceData::A(ip) => RdataView::A(*ip),
            ResourceData::NS(ls) => RdataView::NS(ls@),
            ResourceData::CNAME(ls) => RdataView::CNAME(ls@),
            ResourceData::AAAA(ip) => RdataView::AAAA(*ip),
            ResourceData::SOA(soa) => RdataView::SOA(soa@),
        }
    }
}

impl Clone for ResourceData {
    fn clone(&self) -> (r: Self)
        ensures
            r@ == self@,
    {
        match self {
            ResourceData::A(ip) => ResourceData::A(*ip),
            ResourceData::NS(ls) => ResourceData::NS(ls.clone()),
            ResourceData::CNAME(ls) => ResourceData::CNAME(ls.clone()),
            ResourceData::AAAA(ip) => ResourceData::AAAA(*ip),
            ResourceData::SOA(soa) => ResourceData::SOA(soa.clone()),
        }
    }
}

/// The mathematical content of a resource record.
pub struct RecordView {
    pub name: Labels,
    pub record_type: FlagRecordType,
    pub class_code: u16,
    pub ttl: u32,
    pub length: u16,
    pub data: RdataView,
}

/// A resource record: owner name, type, class, ttl, declared rdata
/// length, and the typed rdata itself.
#[derive(Debug)]
pub struct ResourceRecord {
    pub name: LabelSeq,
    pub record_type: FlagRecordType,
    pub class_code: u16,
    pub ttl: u32,
    pub length: u16,
    pub data: ResourceData,
}

impl View for ResourceRecord {
    type V = RecordView;

    open spec fn view(&self) -> RecordView {
        RecordView {
            name: self.name@,
            record_type: self.record_type,
            class_code: self.class_code,
            ttl: self.ttl,
            length: self.length,
            data: self.data@,
        }
    }
}

impl Clone for ResourceRecord {
    fn clone(&self) -> (r: Self)
        ensures
            r@ == self@,
    {
        ResourceRecord {
            name: self.name.clone(),
            record_type: self.record_type,
            class_code: self.class_code,
            ttl: self.ttl,
            length: self.length,
            data: self.data.clone(),
        }
    }
}

/// The rdata variant a record type code selects.
pub open spec fn rdata_matches_type(rt: FlagRecordType, d: RdataView) -> bool {
    match rt {
        FlagRecordType::A => d is A,
        FlagRecordType::NS => d is NS,
        FlagRecordType::CNAME => d is CNAME,
        FlagRecordType::SOA => d is SOA,
        FlagRecordType::AAAA => d is AAAA,
    }
}

/// Every name inside the rdata fits the wire format.
pub open spec fn rdata_wf(d: RdataView) -> bool {
    match d {
        RdataView::NS(ls) => wf_labels(ls),
        RdataView::CNAME(ls) => wf_labels(ls),
        RdataView::SOA(s) => wf_labels(s.mname) && wf_labels(s.rname),
        _ => true,
    }
}

/// Decodes an SOA rdata at position `pos`: two names, then twenty
/// bytes of 32-bit values.
pub open spec fn spec_parse_soa(b: Seq<u8>, pos: int) -> Result<(SoaView, int), ParseError> {
    match spec_parse_labels(b, pos, pos) {
        Err(e) => Err(e),
        Ok((mname, p1)) => match spec_parse_labels(b, p1, p1) {
            Err(e) => Err(e),
            Ok((rname, p2)) => if p2 + 20 > b.len() {
                Err(ParseError::UnexpectedEnd)
            } else {
                Ok(
                    (
                        SoaView {
                            mname,
                            rname,
                            serial: spec_u32_of_bytes(b[p2], b[p2 + 1], b[p2 + 2], b[p2 + 3]),
                            refresh: spec_u32_of_bytes(
                                b[p2 + 4],
                                b[p2 + 5],
                                b[p2 + 6],
                                b[p2 + 7],
                            ),
                            retry: spec_u32_of_bytes(
                                b[p2 + 8],
                                b[p2 + 9],
                                b[p2 + 10],
                                b[p2 + 11],
                            ),
                            expire: spec_u32_of_bytes(
                                b[p2 + 12],
                                b[p2 + 13],
                                b[p2 + 14],
                                b[p2 + 15],
                            ),
                            minimum: spec_u32_of_bytes(
                                b[p2 + 16],
                                b[p2 + 17],
                                b[p2 + 18],
                                b[p2 + 19],
                            ),
                        },
                        p2 + 20,
                    ),
                )
            },
        },
    }
}

/// Decodes a record's rdata at position `pos`, dispatching on the
/// record type. Address records must declare exactly their fixed
/// size, and name-bearing records must land exactly at
/// `pos + rdlength` once decoded; either violation is a
/// length-consistency failure.
pub open spec fn spec_parse_rdata(b: Seq<u8>, pos: int, rt: FlagRecordType, rdlen: u16) -> Result<
    RdataView,
    ParseError,
> {
    match rt {
        FlagRecordType::A => if rdlen != 4 {
            Err(ParseError::LengthMismatch)
        } else if pos + 4 > b.len() {
            Err(ParseError::UnexpectedEnd)
        } else {
            Ok(RdataView::A(spec_u32_of_bytes(b[pos], b[pos + 1], b[pos + 2], b[pos + 3])))
        },
        FlagRecordType::AAAA => if rdlen != 16 {
            Err(ParseError::LengthMismatch)
        } else if pos + 16 > b.len() {
            Err(ParseError::UnexpectedEnd)
        } else {
            Ok(RdataView::AAAA(spec_u128_at(b, pos)))
        },
        FlagRecordType::NS => if pos + rdlen > b.len() {
            Err(ParseError::UnexpectedEnd)
        } else {
            match spec_parse_labels(b, pos, pos) {
                Err(e) => Err(e),
                Ok((ls, end)) => if end != pos + rdlen {
                    Err(ParseError::LengthMismatch)
                } else {
                    Ok(RdataView::NS(ls))
                },
            }
        },
        FlagRecordType::CNAME => if pos + rdlen > b.len() {
            Err(ParseError::UnexpectedEnd)
        } else {
            match spec_parse_labels(b, pos, pos) {
                Err(e) => Err(e),
                Ok((ls, end)) => if end != pos + rdlen {
                    Err(ParseError::LengthMismatch)
                } else {
                    Ok(RdataView::CNAME(ls))
                },
            }
        },
        FlagRecordType::SOA => if pos + rdlen > b.len() {
            Err(ParseError::UnexpectedEnd)
        } else {
            match spec_parse_soa(b, pos) {
                Err(e) => Err(e),
                Ok((soa, end)) => if end != pos + rdlen {
                    Err(ParseError::LengthMismatch)
                } else {
                    Ok(RdataView::SOA(soa))
                },
            }
        },
    }
}

/// Decodes a whole resource record at position `pos`: owner name, ten
/// fixed bytes, then rdata. A record type outside the supported set
/// is rejected before its rdata is touched.
pub open spec fn spec_parse_record(b: Seq<u8>, pos: int) -> Result<(RecordView, int), ParseError> {
    match spec_parse_labels(b, pos, pos) {
        Err(e) => Err(e),
        Ok((name, p)) => if p + 10 > b.len() {
            Err(ParseError::UnexpectedEnd)
        } else {
            let tcode = spec_u16_of_bytes(b[p], b[p + 1]);
            let class_code = spec_u16_of_bytes(b[p + 2], b[p + 3]);
            let ttl = spec_u32_of_bytes(b[p + 4], b[p + 5], b[p + 6], b[p + 7]);
            let rdlen = spec_u16_of_bytes(b[p + 8], b[p + 9]);
            match FlagRecordType::spec_from_bits(tcode) {
                None => Err(ParseError::UnsupportedType),
                Some(rt) => match spec_parse_rdata(b, p + 10, rt, rdlen) {
                    Err(e) => Err(e),
                    Ok(data) => Ok(
                        (
                            RecordView {
                                name,
                                record_type: rt,
                                class_code,
                                ttl,
                                length: rdlen,
                                data,
                            },
                            p + 10 + rdlen,
                        ),
                    ),
                },
            }
        },
    }
}

/// Encodes an SOA rdata at offset `base` against the suffix map `m`.
pub open spec fn spec_ser_soa(soa: SoaView, m: Map<Labels, int>, base: int) -> (Seq<u8>, Map<
    Labels,
    int,
>) {
    let (b1, m1) = spec_ser_labels(soa.mname, m, base);
    let (b2, m2) = spec_ser_labels(soa.rname, m1, base + b1.len());
    (
        b1 + b2 + spec_be32(soa.serial) + spec_be32(soa.refresh) + spec_be32(soa.retry)
            + spec_be32(soa.expire) + spec_be32(soa.minimum),
        m2,
    )
}

/// Encodes a record's rdata at offset `base` against the suffix map.
pub open spec fn spec_ser_rdata(d: RdataView, m: Map<Labels, int>, base: int) -> (Seq<u8>, Map<
    Labels,
    int,
>) {
    match d {
        RdataView::A(ip) => (spec_be32(ip), m),
        RdataView::AAAA(ip) => (spec_be128(ip), m),
        RdataView::NS(ls) => spec_ser_labels(ls, m, base),
        RdataView::CNAME(ls) => spec_ser_labels(ls, m, base),
        RdataView::SOA(soa) => spec_ser_soa(soa, m, base),
    }
}

/// Encodes a whole record at offset `base`: owner name, ten fixed
/// bytes carrying type, class, ttl and the declared rdlength, then
/// the rdata.
pub open spec fn spec_ser_record(r: RecordView, m: Map<Labels, int>, base: int) -> (Seq<u8>, Map<
    Labels,
    int,
>) {
    let (nb, m1) = spec_ser_labels(r.name, m, base);
    let fixed = spec_be16(r.record_type.spec_bits()) + spec_be16(r.class_code) + spec_be32(r.ttl)
        + spec_be16(r.length);
    let (db, m2) = spec_ser_rdata(r.data, m1, base + nb.len() + 10);
    (nb + fixed + db, m2)
}

/// A decoded SOA rdata is unaffected by bytes appended after the
/// buffer.
pub proof fn lemma_parse_soa_extend(b: Seq<u8>, ext: Seq<u8>, pos: int)
    requires
        spec_parse_soa(b, pos) is Ok,
    ensures
        spec_parse_soa(b + ext, pos) == spec_parse_soa(b, pos),
{
    let t = b + ext;
    crate::labels::lemma_parse_ok_bounds(b, pos, pos);
    crate::labels::lemma_parse_extend(b, ext, pos, pos);
    let (mname, p1) = spec_parse_labels(b, pos, pos)->Ok_0;
    crate::labels::lemma_parse_ok_bounds(b, p1, p1);
    crate::labels::lemma_parse_extend(b, ext, p1, p1);
    let (rname, p2) = spec_parse_labels(b, p1, p1)->Ok_0;
    assert forall|k: int| 0 <= k < 20 implies #[trigger] t[p2 + k] == b[p2 + k] by {}
}

/// A decoded record is unaffected by bytes appended after the buffer.
pub proof fn lemma_parse_record_extend(b: Seq<u8>, ext: Seq<u8>, pos: int)
    requires
        spec_parse_record(b, pos) is Ok,
    ensures
        spec_parse_record(b + ext, pos) == spec_parse_record(b, pos),
{
    let t = b + ext;
    crate::labels::lemma_parse_ok_bounds(b, pos, pos);
    crate::labels::lemma_parse_extend(b, ext, pos, pos);
    let (name, p) = spec_parse_labels(b, pos, pos)->Ok_0;
    assert forall|k: int| 0 <= k < 10 implies #[trigger] t[p + k] == b[p + k] by {}
    let rt = FlagRecordType::spec_from_bits(spec_u16_of_bytes(b[p], b[p + 1]))->Some_0;
    let rdlen = spec_u16_of_bytes(b[p + 8], b[p + 9]);
    let p10 = p + 10;
    match rt {
        FlagRecordType::A => {
            assert forall|k: int| 0 <= k < 4 implies #[trigger] t[p10 + k] == b[p10 + k] by {}
        },
        FlagRecordType::AAAA => {
            assert forall|k: int| 0 <= k < 16 implies #[trigger] t[p10 + k] == b[p10 + k] by {}
            assert(spec_u128_at(t, p10) == spec_u128_at(b, p10));
        },
        FlagRecordType::NS => {
            crate::labels::lemma_parse_extend(b, ext, p10, p10);
        },
        FlagRecordType::CNAME => {
            crate::labels::lemma_parse_extend(b, ext, p10, p10);
        },
        FlagRecordType::SOA => {
            lemma_parse_soa_extend(b, ext, p10);
        },
    }
}

/// An SOA rdata serialized at the end of a buffer with a sound suffix
/// map decodes back to exactly itself, and the map stays sound.
pub proof fn lemma_ser_soa_parses(b: Seq<u8>, m: Map<Labels, int>, soa: SoaView)
    requires
        crate::labels::ctx_ok(b, m),
        wf_labels(soa.mname),
        wf_labels(soa.rname),
    ensures
        ({
            let (sb, m2) = spec_ser_soa(soa, m, b.len() as int);
            &&& spec_parse_soa(b + sb, b.len() as int) == Ok::<(SoaView, int), ParseError>(
                (soa, b.len() + sb.len() as int),
            )
            &&& crate::labels::ctx_ok(b + sb, m2)
        }),
{
    let (b1, m1) = spec_ser_labels(soa.mname, m, b.len() as int);
    crate::labels::lemma_ser_name_parses(b, m, soa.mname);
    let (b2, m2) = spec_ser_labels(soa.rname, m1, b.len() + b1.len() as int);
    crate::labels::lemma_ser_name_parses(b + b1, m1, soa.rname);
    let fixed = spec_be32(soa.serial) + spec_be32(soa.refresh) + spec_be32(soa.retry) + spec_be32(
        soa.expire,
    ) + spec_be32(soa.minimum);
    let (sb, m2b) = spec_ser_soa(soa, m, b.len() as int);
    assert(sb =~= b1 + b2 + fixed);
    let t = b + sb;
    assert(t =~= (b + b1) + (b2 + fixed));
    assert(t =~= ((b + b1) + b2) + fixed);
    crate::labels::lemma_parse_extend(b + b1, b2 + fixed, b.len() as int, b.len() as int);
    let p1 = b.len() + b1.len() as int;
    crate::labels::lemma_parse_extend((b + b1) + b2, fixed, p1, p1);
    let p2 = p1 + b2.len() as int;
    assert forall|k: int| 0 <= k < 20 implies #[trigger] t[p2 + k] == fixed[k] by {}
    crate::lemma_be32_round_trip(soa.serial);
    crate::lemma_be32_round_trip(soa.refresh);
    crate::lemma_be32_round_trip(soa.retry);
    crate::lemma_be32_round_trip(soa.expire);
    crate::lemma_be32_round_trip(soa.minimum);
    assert(fixed[0] == spec_be32(soa.serial)[0] && fixed[1] == spec_be32(soa.serial)[1] && fixed[2]
        == spec_be32(soa.serial)[2] && fixed[3] == spec_be32(soa.serial)[3]);
    assert(fixed[4] == spec_be32(soa.refresh)[0] && fixed[5] == spec_be32(soa.refresh)[1]
        && fixed[6] == spec_be32(soa.refresh)[2] && fixed[7] == spec_be32(soa.refresh)[3]);
    assert(fixed[8] == spec_be32(soa.retry)[0] && fixed[9] == spec_be32(soa.retry)[1] && fixed[10]
        == spec_be32(soa.retry)[2] && fixed[11] == spec_be32(soa.retry)[3]);
    assert(fixed[12] == spec_be32(soa.expire)[0] && fixed[13] == spec_be32(soa.expire)[1]
        && fixed[14] == spec_be32(soa.expire)[2] && fixed[15] == spec_be32(soa.expire)[3]);
    assert(fixed[16] == spec_be32(soa.minimum)[0] && fixed[17] == spec_be32(soa.minimum)[1]
        && fixed[18] == spec_be32(soa.minimum)[2] && fixed[19] == spec_be32(soa.minimum)[3]);
    crate::labels::lemma_ctx_ok_extend((b + b1) + b2, fixed, m2);
}

/// A record serialized at the end of a buffer with a sound suffix map
/// decodes back to exactly itself, provided its declared rdlength
/// equals what its rdata actually encodes to in that context, and the
/// map stays sound.
#[verifier::spinoff_prover]
#[verifier::rlimit(100)]
pub proof fn lemma_ser_record_parses(b: Seq<u8>, m: Map<Labels, int>, r: RecordView)
    requires
        crate::labels::ctx_ok(b, m),
        wf_labels(r.name),
        rdata_wf(r.data),
        rdata_matches_type(r.record_type, r.data),
        ({
            let (nb, m1) = spec_ser_labels(r.name, m, b.len() as int);
            spec_ser_rdata(r.data, m1, b.len() + nb.len() + 10 as int).0.len() == r.length
        }),
    ensures
        ({
            let (rb, m2) = spec_ser_record(r, m, b.len() as int);
            &&& spec_parse_record(b + rb, b.len() as int) == Ok::<(RecordView, int), ParseError>(
                (r, b.len() + rb.len() as int),
            )
            &&& crate::labels::ctx_ok(b + rb, m2)
        }),
{
    let (nb, m1) = spec_ser_labels(r.name, m, b.len() as int);
    crate::labels::lemma_ser_name_parses(b, m, r.name);
    let fixed = spec_be16(r.record_type.spec_bits()) + spec_be16(r.class_code) + spec_be32(r.ttl)
        + spec_be16(r.length);
    let base2 = b.len() + nb.len() + 10;
    let (db, m2) = spec_ser_rdata(r.data, m1, base2 as int);
    let (rb, m2b) = spec_ser_record(r, m, b.len() as int);
    assert(rb =~= nb + fixed + db);
    let t = b + rb;
    assert(t =~= (b + nb) + (fixed + db));
    let bb = (b + nb) + fixed;
    assert(t =~= bb + db);
    crate::labels::lemma_parse_extend(b + nb, fixed + db, b.len() as int, b.len() as int);
    let p = b.len() + nb.len() as int;
    assert forall|k: int| 0 <= k < 10 implies #[trigger] t[p + k] == fixed[k] by {}
    crate::lemma_be16_round_trip(r.record_type.spec_bits());
    crate::lemma_be16_round_trip(r.class_code);
    crate::lemma_be32_round_trip(r.ttl);
    crate::lemma_be16_round_trip(r.length);
    assert(fixed[0] == spec_be16(r.record_type.spec_bits())[0] && fixed[1] == spec_be16(
        r.record_type.spec_bits(),
    )[1]);
    assert(fixed[2] == spec_be16(r.class_code)[0] && fixed[3] == spec_be16(r.class_code)[1]);
    assert(fixed[4] == spec_be32(r.ttl)[0] && fixed[5] == spec_be32(r.ttl)[1] && fixed[6]
        == spec_be32(r.ttl)[2] && fixed[7] == spec_be32(r.ttl)[3]);
    assert(fixed[8] == spec_be16(r.length)[0] && fixed[9] == spec_be16(r.length)[1]);
    assert(spec_u16_of_bytes(t[p], t[p + 1]) == r.record_type.spec_bits());
    assert(FlagRecordType::spec_from_bits(r.record_type.spec_bits()) == Some(r.record_type));
    crate::labels::lemma_ctx_ok_extend(b + nb, fixed, m1);
    assert(bb.len() == base2);
    match r.data {
        RdataView::A(ip) => {
            assert(db == spec_be32(ip));
            assert(r.length == 4);
            assert forall|k: int| 0 <= k < 4 implies #[trigger] t[base2 + k] == db[k] by {}
            crate::lemma_be32_round_trip(ip);
            assert(spec_parse_rdata(t, base2 as int, r.record_type, r.length) == Ok::<
                RdataView,
                ParseError,
            >(r.data));
            crate::labels::lemma_ctx_ok_extend(bb, db, m1);
        },
        RdataView::AAAA(ip) => {
            assert(db == spec_be128(ip));
            assert(r.length == 16);
            assert forall|k: int| 0 <= k < 16 implies #[trigger] t[base2 + k] == db[k] by {}
            crate::lemma_be128_round_trip(ip);
            assert(spec_u128_at(t, base2 as int) == spec_u128_at(spec_be128(ip), 0));
            assert(spec_parse_rdata(t, base2 as int, r.record_type, r.length) == Ok::<
                RdataView,
                ParseError,
            >(r.data));
            crate::labels::lemma_ctx_ok_extend(bb, db, m1);
        },
        RdataView::NS(ls) => {
            crate::labels::lemma_ser_name_parses(bb, m1, ls);
            assert(spec_parse_labels(bb + db, base2 as int, base2 as int) == Ok::<
                (Labels, int),
                ParseError,
            >((ls, base2 + db.len() as int)));
            assert(base2 + r.length == t.len());
            assert(spec_parse_rdata(t, base2 as int, r.record_type, r.length) == Ok::<
                RdataView,
                ParseError,
            >(r.data));
        },
        RdataView::CNAME(ls) => {
            crate::labels::lemma_ser_name_parses(bb, m1, ls);
            assert(spec_parse_labels(bb + db, base2 as int, base2 as int) == Ok::<
                (Labels, int),
                ParseError,
            >((ls, base2 + db.len() as int)));
            assert(base2 + r.length == t.len());
            assert(spec_parse_rdata(t, base2 as int, r.record_type, r.length) == Ok::<
                RdataView,
                ParseError,
            >(r.data));
        },
        RdataView::SOA(soa) => {
            lemma_ser_soa_parses(bb, m1, soa);
            assert(spec_parse_soa(bb + db, base2 as int) == Ok::<(SoaView, int), ParseError>(
                (soa, base2 + db.len() as int),
            ));
            assert(base2 + r.length == t.len());
            assert(spec_parse_rdata(t, base2 as int, r.record_type, r.length) == Ok::<
                RdataView,
                ParseError,
            >(r.data));
        },
    }
}

/// An address record whose declared rdlength is not exactly its
/// address size fails to decode with a length-consistency error — it
/// is never silently truncated or padded.
pub proof fn lemma_addr_rdata_length_mismatch(b: Seq<u8>, pos: int, rdlen: u16)
    ensures
        rdlen != 4 ==> spec_parse_rdata(b, pos, FlagRecordType::A, rdlen) == Err::<
            RdataView,
            ParseError,
        >(ParseError::LengthMismatch),
        rdlen != 16 ==> spec_parse_rdata(b, pos, FlagRecordType::AAAA, rdlen) == Err::<
            RdataView,
            ParseError,
        >(ParseError::LengthMismatch),
{
}

/// Reads sixteen bytes at `pos` as a big-endian 128-bit value.
fn u128_at(b: &Vec<u8>, pos: usize) -> (r: u128)
    requires
        pos + 16 <= b@.len(),
    ensures
        r == spec_u128_at(b@, pos as int),
{
    let total = b.len();
    b[pos] as u128 * 0x1000000000000000000000000000000 + b[pos + 1] as u128
        * 0x10000000000000000000000000000 + b[pos + 2] as u128 * 0x100000000000000000000000000
        + b[pos + 3] as u128 * 0x1000000000000000000000000 + b[pos + 4] as u128
        * 0x10000000000000000000000 + b[pos + 5] as u128 * 0x100000000000000000000 + b[pos + 6]
        as u128 * 0x1000000000000000000 + b[pos + 7] as u128 * 0x10000000000000000 + b[pos + 8]
        as u128 * 0x100000000000000 + b[pos + 9] as u128 * 0x1000000000000 + b[pos + 10] as u128
        * 0x10000000000 + b[pos + 11] as u128 * 0x100000000 + b[pos + 12] as u128 * 0x1000000 + b[
        pos + 13] as u128 * 0x10000 + b[pos + 14] as u128 * 0x100 + b[pos + 15] as u128
}

impl SOARecord {
    /// Encodes the SOA rdata at the end of the output buffer.
    pub fn serialize(&self, context: &mut SerializeContext)
        requires
            old(context).inv(),
            wf_labels(self@.mname),
            wf_labels(self@.rname),
        ensures
            final(context).inv(),
            ({
                let (bytes, m2) = spec_ser_soa(
                    self@,
                    old(context).locs(),
                    old(context).buf().len() as int,
                );
                final(context).buf() == old(context).buf() + bytes && final(context).locs() == m2
            }),
    {
        let ghost obuf = context.buf();
        let ghost olocs = context.locs();
        self.mname.serialize(context);
        let ghost b1 = spec_ser_labels(self@.mname, olocs, obuf.len() as int).0;
        let ghost m1 = spec_ser_labels(self@.mname, olocs, obuf.len() as int).1;
        self.rname.serialize(context);
        let ghost b2 = spec_ser_labels(self@.rname, m1, obuf.len() + b1.len() as int).0;
        push_u32(context, self.serial);
        push_u32(context, self.refresh);
        push_u32(context, self.retry);
        push_u32(context, self.expire);
        push_u32(context, self.minimum);
        proof {
            assert(context.buf() =~= obuf + (b1 + b2 + spec_be32(self@.serial) + spec_be32(
                self@.refresh,
            ) + spec_be32(self@.retry) + spec_be32(self@.expire) + spec_be32(self@.minimum)));
        }
    }

    /// Decodes an SOA rdata at the context's cursor and advances past
    /// it; the caller checks the cursor against the declared rdlength.
    pub fn parse(context: &mut ParseContext) -> (r: Result<SOARecord, ParseError>)
        ensures
            final(context).buf() == old(context).buf(),
            ({
                let s = spec_parse_soa(old(context).buf(), old(context).pos());
                match r {
                    Ok(soa) => s matches Ok(p) && p.0 == soa@ && final(context).pos() == p.1,
                    Err(e) => s == Err::<(SoaView, int), ParseError>(e) && final(context).pos()
                        == old(context).pos(),
                }
            }),
    {
        let pos = context.current_idx();
        match parse_soa_at(context.buf_ref(), pos) {
            Ok((soa, end)) => {
                context.advance(end - pos);
                Ok(soa)
            },
            Err(e) => Err(e),
        }
    }
}

/// Appends the four big-endian bytes of a 32-bit value.
fn push_u32(context: &mut SerializeContext, x: u32)
    ensures
        final(context).buf() == old(context).buf() + spec_be32(x),
        final(context).locs() == old(context).locs(),
        old(context).inv() ==> final(context).inv(),
{
    let ghost obuf = context.buf();
    context.push((x / 0x1000000) as u8);
    context.push(((x / 0x10000) % 256) as u8);
    context.push(((x / 256) % 256) as u8);
    context.push((x % 256) as u8);
    proof {
        assert(context.buf() =~= obuf + spec_be32(x));
    }
}

/// Decodes an SOA rdata at absolute position `pos`.
fn parse_soa_at(b: &Vec<u8>, pos: usize) -> (r: Result<(SOARecord, usize), ParseError>)
    ensures
        ({
            let s = spec_parse_soa(b@, pos as int);
            match r {
                Ok(p) => s matches Ok(q) && q.0 == p.0@ && q.1 == p.1 as int && pos < p.1
                    <= b@.len(),
                Err(e) => s == Err::<(SoaView, int), ParseError>(e),
            }
        }),
{
    let (mlabels, p1) = match parse_labels_at(b, pos, pos) {
        Ok(ok) => ok,
        Err(e) => {
            return Err(e);
        },
    };
    let (rlabels, p2) = match parse_labels_at(b, p1, p1) {
        Ok(ok) => ok,
        Err(e) => {
            return Err(e);
        },
    };
    let total = b.len();
    if total - p2 < 20 {
        return Err(ParseError::UnexpectedEnd);
    }
    let soa = SOARecord {
        mname: LabelSeq { labels: mlabels },
        rname: LabelSeq { labels: rlabels },
        serial: u32_of_bytes(b[p2], b[p2 + 1], b[p2 + 2], b[p2 + 3]),
        refresh: u32_of_bytes(b[p2 + 4], b[p2 + 5], b[p2 + 6], b[p2 + 7]),
        retry: u32_of_bytes(b[p2 + 8], b[p2 + 9], b[p2 + 10], b[p2 + 11]),
        expire: u32_of_bytes(b[p2 + 12], b[p2 + 13], b[p2 + 14], b[p2 + 15]),
        minimum: u32_of_bytes(b[p2 + 16], b[p2 + 17], b[p2 + 18], b[p2 + 19]),
    };
    Ok((soa, p2 + 20))
}

/// Decodes a whole record at absolute position `pos`.
pub(crate) fn parse_record_at(b: &Vec<u8>, pos: usize) -> (r: Result<
    (ResourceRecord, usize),
    ParseError,
>)
    ensures
        ({
            let s = spec_parse_record(b@, pos as int);
            match r {
                Ok(p) => s matches Ok(q) && q.0 == p.0@ && q.1 == p.1 as int && pos < p.1
                    <= b@.len(),
                Err(e) => s == Err::<(RecordView, int), ParseError>(e),
            }
        }),
{
    let (name_labels, p) = match parse_labels_at(b, pos, pos) {
        Ok(ok) => ok,
        Err(e) => {
            return Err(e);
        },
    };
    let total = b.len();
    if total - p < 10 {
        return Err(ParseError::UnexpectedEnd);
    }
    let tcode = u16_of_bytes(b[p], b[p + 1]);
    let class_code = u16_of_bytes(b[p + 2], b[p + 3]);
    let ttl = u32_of_bytes(b[p + 4], b[p + 5], b[p + 6], b[p + 7]);
    let rdlen = u16_of_bytes(b[p + 8], b[p + 9]);
    let rt = match FlagRecordType::from_bits(tcode) {
        Some(rt) => rt,
        None => {
            return Err(ParseError::UnsupportedType);
        },
    };
    let p10 = p + 10;
    let rdlen_us = rdlen as usize;
    let data = match rt {
        FlagRecordType::A => {
            if rdlen != 4 {
                return Err(ParseError::LengthMismatch);
            }
            if total - p10 < 4 {
                return Err(ParseError::UnexpectedEnd);
            }
            ResourceData::A(u32_of_bytes(b[p10], b[p10 + 1], b[p10 + 2], b[p10 + 3]))
        },
        FlagRecordType::AAAA => {
            if rdlen != 16 {
                return Err(ParseError::LengthMismatch);
            }
            if total - p10 < 16 {
                return Err(ParseError::UnexpectedEnd);
            }
            ResourceData::AAAA(u128_at(b, p10))
        },
        FlagRecordType::NS => {
            if total - p10 < rdlen_us {
                return Err(ParseError::UnexpectedEnd);
            }
            match parse_labels_at(b, p10, p10) {
                Err(e) => {
                    return Err(e);
                },
                Ok((ls, end)) => {
                    if end != p10 + rdlen_us {
                        return Err(ParseError::LengthMismatch);
                    }
                    ResourceData::NS(LabelSeq { labels: ls })
                },
            }
        },
        FlagRecordType::CNAME => {
            if total - p10 < rdlen_us {
                return Err(ParseError::UnexpectedEnd);
            }
            match parse_labels_at(b, p10, p10) {
                Err(e) => {
                    return Err(e);
                },
                Ok((ls, end)) => {
                    if end != p10 + rdlen_us {
                        return Err(ParseError::LengthMismatch);
                    }
                    ResourceData::CNAME(LabelSeq { labels: ls })
                },
            }
        },
        FlagRecordType::SOA => {
            if total - p10 < rdlen_us {
                return Err(ParseError::UnexpectedEnd);
            }
            match parse_soa_at(b, p10) {
                Err(e) => {
                    return Err(e);
                },
                Ok((soa, end)) => {
                    if end != p10 + rdlen_us {
                        return Err(ParseError::LengthMismatch);
                    }
                    ResourceData::SOA(soa)
                },
            }
        },
    };
    let record = ResourceRecord {
        name: LabelSeq { labels: name_labels },
        record_type: rt,
        class_code,
        ttl,
        length: rdlen,
        data,
    };
    Ok((record, p10 + rdlen_us))
}

impl ResourceRecord {
    /// Encodes the record at the end of the output buffer: the owner
    /// name, ten fixed bytes, then the rdata.
    pub fn serialize(&self, context: &mut SerializeContext)
        requires
            old(context).inv(),
            wf_labels(self@.name),
            rdata_wf(self@.data),
        ensures
            final(context).inv(),
            ({
                let (bytes, m2) = spec_ser_record(
                    self@,
                    old(context).locs(),
                    old(context).buf().len() as int,
                );
                final(context).buf() == old(context).buf() + bytes && final(context).locs() == m2
            }),
    {
        let ghost obuf = context.buf();
        let ghost olocs = context.locs();
        self.name.serialize(context);
        let ghost nb = spec_ser_labels(self@.name, olocs, obuf.len() as int).0;
        let ghost m1 = spec_ser_labels(self@.name, olocs, obuf.len() as int).1;
        let record_type = self.record_type.bits();
        context.push((record_type / 256) as u8);
        context.push((record_type % 256) as u8);
        context.push((self.class_code / 256) as u8);
        context.push((self.class_code % 256) as u8);
        push_u32(context, self.ttl);
        context.push((self.length / 256) as u8);
        context.push((self.length % 256) as u8);
        let ghost fixed = spec_be16(self@.record_type.spec_bits()) + spec_be16(self@.class_code)
            + spec_be32(self@.ttl) + spec_be16(self@.length);
        proof {
            assert(context.buf() =~= obuf + nb + fixed);
            assert(context.buf().len() == obuf.len() + nb.len() + 10);
        }
        let ghost base2 = obuf.len() + nb.len() + 10;
        match &self.data {
            ResourceData::A(ip) => {
                push_u32(context, *ip);
                proof {
                    assert(spec_ser_rdata(self@.data, m1, base2 as int) == (
                        spec_be32(self@.data->A_0),
                        m1,
                    ));
                }
            },
            ResourceData::AAAA(ip) => {
                push_u128(context, *ip);
            },
            ResourceData::SOA(soa) => {
                soa.serialize(context);
            },
            ResourceData::NS(seq_name) => {
                seq_name.serialize(context);
            },
            ResourceData::CNAME(seq_name) => {
                seq_name.serialize(context);
            },
        }
        proof {
            let (db, m2) = spec_ser_rdata(self@.data, m1, base2 as int);
            assert(context.buf() =~= obuf + ((nb + fixed) + db));
            assert(context.buf() =~= obuf + (nb + fixed + db));
        }
    }

    /// Decodes a record at the context's cursor and advances past it.
    pub fn parse(context: &mut ParseContext) -> (r: Result<ResourceRecord, ParseError>)
        ensures
            final(context).buf() == old(context).buf(),
            ({
                let s = spec_parse_record(old(context).buf(), old(context).pos());
                match r {
                    Ok(rec) => s matches Ok(p) && p.0 == rec@ && final(context).pos() == p.1,
                    Err(e) => s == Err::<(RecordView, int), ParseError>(e)
                        && final(context).pos() == old(context).pos(),
                }
            }),
    {
        let pos = context.current_idx();
        match parse_record_at(context.buf_ref(), pos) {
            Ok((record, end)) => {
                context.advance(end - pos);
                Ok(record)
            },
            Err(e) => Err(e),
        }
    }
}

/// Appends the sixteen big-endian bytes of a 128-bit value.
fn push_u128(context: &mut SerializeContext, x: u128)
    ensures
        final(context).buf() == old(context).buf() + spec_be128(x),
        final(context).locs() == old(context).locs(),
        old(context).inv() ==> final(context).inv(),
{
    let ghost obuf = context.buf();
    context.push((x / 0x1000000000000000000000000000000) as u8);
    context.push(((x / 0x10000000000000000000000000000) % 256) as u8);
    context.push(((x / 0x100000000000000000000000000) % 256) as u8);
    context.push(((x / 0x1000000000000000000000000) % 256) as u8);
    context.push(((x / 0x10000000000000000000000) % 256) as u8);
    context.push(((x / 0x100000000000000000000) % 256) as u8);
    context.push(((x / 0x1000000000000000000) % 256) as u8);
    context.push(((x / 0x10000000000000000) % 256) as u8);
    context.push(((x / 0x100000000000000) % 256) as u8);
    context.push(((x / 0x1000000000000) % 256) as u8);
    context.push(((x / 0x10000000000) % 256) as u8);
    context.push(((x / 0x100000000) % 256) as u8);
    context.push(((x / 0x1000000) % 256) as u8);
    context.push(((x / 0x10000) % 256) as u8);
    context.push(((x / 0x100) % 256) as u8);
    context.push((x % 256) as u8);
    proof {
        assert(context.buf() =~= obuf + spec_be128(x));
    }
}

} // verus!
