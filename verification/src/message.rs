//! A whole DNS message: header, questions, answer records, authority
//! records, and additional records (the resolver reads glue from the
//! additional section). The header's section counts drive parsing and
//! must equal the number of entries serialized in each section.

use vstd::prelude::*;

use crate::common::{ParseContext, SerializeContext};
use crate::errors::ParseError;
use crate::header::{spec_header_bytes, spec_parse_header, Header};
use crate::labels::{spec_ser_labels, wf_labels, Labels};
use crate::question::{spec_parse_question, spec_ser_question, Question, QuestionView};
use crate::record::{
    rdata_wf, spec_parse_record, spec_ser_record, RdataView, RecordView, ResourceRecord,
};

verus! {

impl DeepView for Question {
    type V = QuestionView;

    open spec fn deep_view(&self) -> QuestionView {
        self@
    }
}

impl DeepView for ResourceRecord {
    type V = RecordView;

    open spec fn deep_view(&self) -> RecordView {
        self@
    }
}

/// The mathematical content of a message.
pub struct MessageView {
    pub header: Header,
    pub questions: Seq<QuestionView>,
    pub resources: Seq<RecordView>,
    pub auth_resources: Seq<RecordView>,
    pub addi_resources: Seq<RecordView>,
}

/// A whole DNS message.
#[derive(Debug)]
pub struct Message {
    pub header: Header,
    pub questions: Vec<Question>,
    pub resources: Vec<ResourceRecord>,
    pub auth_resources: Vec<ResourceRecord>,
    pub addi_resources: Vec<ResourceRecord>,
}

impl View for Message {
    type V = MessageView;

    open spec fn view(&self) -> MessageView {
        MessageView {
            header: self.header,
            questions: self.questions.deep_view(),
            resources: self.resources.deep_view(),
            auth_resources: self.auth_resources.deep_view(),
            addi_resources: self.addi_resources.deep_view(),
        }
    }
}

/// Decodes `n` consecutive questions starting at `pos`.
pub open spec fn spec_parse_questions(b: Seq<u8>, pos: int, n: int) -> Result<
    (Seq<QuestionView>, int),
    ParseError,
>
    decreases n,
{
    if n <= 0 {
        Ok((Seq::empty(), pos))
    } else {
        match spec_parse_question(b, pos) {
            Err(e) => Err(e),
            Ok((q, p)) => match spec_parse_questions(b, p, n - 1) {
                Err(e) => Err(e),
                Ok((qs, end)) => Ok((seq![q] + qs, end)),
            },
        }
    }
}

/// Decodes `n` consecutive resource records starting at `pos`.
pub open spec fn spec_parse_records(b: Seq<u8>, pos: int, n: int) -> Result<
    (Seq<RecordView>, int),
    ParseError,
>
    decreases n,
{
    if n <= 0 {
        Ok((Seq::empty(), pos))
    } else {
        match spec_parse_record(b, pos) {
            Err(e) => Err(e),
            Ok((r, p)) => match spec_parse_records(b, p, n - 1) {
                Err(e) => Err(e),
                Ok((rs, end)) => Ok((seq![r] + rs, end)),
            },
        }
    }
}

/// Decodes a whole message: the header, then each section with as
/// many entries as the header's counts declare. Trailing bytes after
/// the last declared entry are ignored, as a datagram may be padded.
pub open spec fn spec_parse_message(b: Seq<u8>) -> Result<MessageView, ParseError> {
    match spec_parse_header(b, 0) {
        Err(e) => Err(e),
        Ok((header, p0)) => match spec_parse_questions(b, p0, header.n_question as int) {
            Err(e) => Err(e),
            Ok((questions, p1)) => match spec_parse_records(b, p1, header.n_answer as int) {
                Err(e) => Err(e),
                Ok((resources, p2)) => match spec_parse_records(
                    b,
                    p2,
                    header.n_auth_res as int,
                ) {
                    Err(e) => Err(e),
                    Ok((auth_resources, p3)) => match spec_parse_records(
                        b,
                        p3,
                        header.n_addi_rrs as int,
                    ) {
                        Err(e) => Err(e),
                        Ok((addi_resources, _)) => Ok(
                            MessageView {
                                header,
                                questions,
                                resources,
                                auth_resources,
                                addi_resources,
                            },
                        ),
                    },
                },
            },
        },
    }
}

/// Encodes consecutive questions at offset `base`.
pub open spec fn spec_ser_questions(qs: Seq<QuestionView>, m: Map<Labels, int>, base: int) -> (
    Seq<u8>,
    Map<Labels, int>,
)
    decreases qs.len(),
{
    if qs.len() == 0 {
        (Seq::empty(), m)
    } else {
        let (hb, m1) = spec_ser_question(qs[0], m, base);
        let (tb, m2) = spec_ser_questions(qs.drop_first(), m1, base + hb.len());
        (hb + tb, m2)
    }
}

/// Encodes consecutive records at offset `base`.
pub open spec fn spec_ser_records(rs: Seq<RecordView>, m: Map<Labels, int>, base: int) -> (
    Seq<u8>,
    Map<Labels, int>,
)
    decreases rs.len(),
{
    if rs.len() == 0 {
        (Seq::empty(), m)
    } else {
        let (hb, m1) = spec_ser_record(rs[0], m, base);
        let (tb, m2) = spec_ser_records(rs.drop_first(), m1, base + hb.len());
        (hb + tb, m2)
    }
}

/// Encodes a whole message: twelve header bytes, then the sections in
/// order, threading one suffix map through all of them.
pub open spec fn spec_ser_message(mv: MessageView) -> Seq<u8> {
    let hb = spec_header_bytes(mv.header);
    let (qb, m1) = spec_ser_questions(mv.questions, Map::empty(), 12);
    let (rb, m2) = spec_ser_records(mv.resources, m1, 12 + qb.len() as int);
    let (ab, m3) = spec_ser_records(mv.auth_resources, m2, 12 + qb.len() + rb.len() as int);
    let (db, _) = spec_ser_records(mv.addi_resources, m3, 12 + qb.len() + rb.len() + ab.len() as int);
    hb + qb + rb + ab + db
}

/// Every name the message holds fits the wire format.
pub open spec fn msg_names_wf(mv: MessageView) -> bool {
    &&& forall|i: int|
        0 <= i < mv.questions.len() ==> wf_labels((#[trigger] mv.questions[i]).name)
    &&& forall|i: int|
        0 <= i < mv.resources.len() ==> wf_labels((#[trigger] mv.resources[i]).name) && rdata_wf(
            mv.resources[i].data,
        )
    &&& forall|i: int|
        0 <= i < mv.auth_resources.len() ==> wf_labels((#[trigger] mv.auth_resources[i]).name)
            && rdata_wf(mv.auth_resources[i].data)
    &&& forall|i: int|
        0 <= i < mv.addi_resources.len() ==> wf_labels((#[trigger] mv.addi_resources[i]).name)
            && rdata_wf(mv.addi_resources[i].data)
}

/// A decoded question list is unaffected by appended bytes.
proof fn lemma_parse_questions_extend(b: Seq<u8>, ext: Seq<u8>, pos: int, n: int)
    requires
        spec_parse_questions(b, pos, n) is Ok,
    ensures
        spec_parse_questions(b + ext, pos, n) == spec_parse_questions(b, pos, n),
    decreases n,
{
    if n > 0 {
        crate::question::lemma_parse_question_extend(b, ext, pos);
        let (q, p) = crate::question::spec_parse_question(b, pos)->Ok_0;
        lemma_parse_questions_extend(b, ext, p, n - 1);
    }
}

/// A decoded record list is unaffected by appended bytes.
proof fn lemma_parse_records_extend(b: Seq<u8>, ext: Seq<u8>, pos: int, n: int)
    requires
        spec_parse_records(b, pos, n) is Ok,
    ensures
        spec_parse_records(b + ext, pos, n) == spec_parse_records(b, pos, n),
    decreases n,
{
    if n > 0 {
        crate::record::lemma_parse_record_extend(b, ext, pos);
        let (r, p) = spec_parse_record(b, pos)->Ok_0;
        lemma_parse_records_extend(b, ext, p, n - 1);
    }
}

/// Every question of the list is well formed.
pub open spec fn questions_wf(qs: Seq<QuestionView>) -> bool {
    forall|i: int| 0 <= i < qs.len() ==> wf_labels((#[trigger] qs[i]).name)
}

/// Every record of the list is well formed: wire-format names, and an
/// rdata variant agreeing with the record type.
pub open spec fn records_wf(rs: Seq<RecordView>) -> bool {
    forall|i: int|
        0 <= i < rs.len() ==> wf_labels((#[trigger] rs[i]).name) && rdata_wf(rs[i].data)
            && crate::record::rdata_matches_type(rs[i].record_type, rs[i].data)
}

/// Each record's declared rdlength equals the number of bytes its
/// rdata actually encodes to at its place in the message.
pub open spec fn records_len_ok(rs: Seq<RecordView>, m: Map<Labels, int>, base: int) -> bool
    decreases rs.len(),
{
    if rs.len() == 0 {
        true
    } else {
        let (nb, m1) = crate::labels::spec_ser_labels(rs[0].name, m, base);
        let (db, m2x) = crate::record::spec_ser_rdata(rs[0].data, m1, base + nb.len() + 10 as int);
        let (hb, m2) = spec_ser_record(rs[0], m, base);
        db.len() == rs[0].length && records_len_ok(rs.drop_first(), m2, base + hb.len() as int)
    }
}

/// A question list serialized at the end of a buffer with a sound
/// suffix map decodes back to exactly those questions, and the map
/// stays sound.
proof fn lemma_ser_questions_parse(b: Seq<u8>, m: Map<Labels, int>, qs: Seq<QuestionView>)
    requires
        crate::labels::ctx_ok(b, m),
        questions_wf(qs),
    ensures
        ({
            let (bytes, m2) = spec_ser_questions(qs, m, b.len() as int);
            &&& spec_parse_questions(b + bytes, b.len() as int, qs.len() as int) == Ok::<
                (Seq<QuestionView>, int),
                ParseError,
            >((qs, b.len() + bytes.len() as int))
            &&& crate::labels::ctx_ok(b + bytes, m2)
        }),
    decreases qs.len(),
{
    let (bytes, m2) = spec_ser_questions(qs, m, b.len() as int);
    if qs.len() == 0 {
        assert(bytes =~= Seq::<u8>::empty());
        assert(b + bytes =~= b);
        assert(qs =~= Seq::<QuestionView>::empty());
    } else {
        let (hb, m1) = crate::question::spec_ser_question(qs[0], m, b.len() as int);
        crate::question::lemma_ser_question_parses(b, m, qs[0]);
        let (tb, m2x) = spec_ser_questions(qs.drop_first(), m1, b.len() + hb.len() as int);
        assert(questions_wf(qs.drop_first())) by {
            assert forall|i: int| 0 <= i < qs.drop_first().len() implies wf_labels((
            #[trigger] qs.drop_first()[i]).name) by {
                assert(qs.drop_first()[i] == qs[i + 1]);
            }
        }
        lemma_ser_questions_parse(b + hb, m1, qs.drop_first());
        let t = b + bytes;
        assert(t =~= (b + hb) + tb);
        crate::question::lemma_parse_question_extend(b + hb, tb, b.len() as int);
        assert(spec_parse_question(t, b.len() as int) == Ok::<(QuestionView, int), ParseError>(
            (qs[0], b.len() + hb.len() as int),
        ));
        assert(spec_parse_questions(t, b.len() + hb.len() as int, qs.len() - 1) == Ok::<
            (Seq<QuestionView>, int),
            ParseError,
        >((qs.drop_first(), b.len() + bytes.len() as int)));
        assert(seq![qs[0]] + qs.drop_first() =~= qs);
    }
}

/// A record list serialized at the end of a buffer with a sound
/// suffix map decodes back to exactly those records, provided each
/// record's declared rdlength is consistent with its rdata's actual
/// encoding, and the map stays sound.
#[verifier::spinoff_prover]
#[verifier::rlimit(100)]
proof fn lemma_ser_records_parse(b: Seq<u8>, m: Map<Labels, int>, rs: Seq<RecordView>)
    requires
        crate::labels::ctx_ok(b, m),
        records_wf(rs),
        records_len_ok(rs, m, b.len() as int),
    ensures
        ({
            let (bytes, m2) = spec_ser_records(rs, m, b.len() as int);
            &&& spec_parse_records(b + bytes, b.len() as int, rs.len() as int) == Ok::<
                (Seq<RecordView>, int),
                ParseError,
            >((rs, b.len() + bytes.len() as int))
            &&& crate::labels::ctx_ok(b + bytes, m2)
        }),
    decreases rs.len(),
{
    let (bytes, m2) = spec_ser_records(rs, m, b.len() as int);
    if rs.len() == 0 {
        assert(bytes =~= Seq::<u8>::empty());
        assert(b + bytes =~= b);
        assert(rs =~= Seq::<RecordView>::empty());
    } else {
        let (hb, m1) = spec_ser_record(rs[0], m, b.len() as int);
        crate::record::lemma_ser_record_parses(b, m, rs[0]);
        assert(records_wf(rs.drop_first())) by {
            assert forall|i: int|
                0 <= i < rs.drop_first().len() implies wf_labels((
            #[trigger] rs.drop_first()[i]).name) && rdata_wf(rs.drop_first()[i].data)
                && crate::record::rdata_matches_type(
                rs.drop_first()[i].record_type,
                rs.drop_first()[i].data,
            ) by {
                assert(rs.drop_first()[i] == rs[i + 1]);
            }
        }
        lemma_ser_records_parse(b + hb, m1, rs.drop_first());
        let (tb, m2x) = spec_ser_records(rs.drop_first(), m1, b.len() + hb.len() as int);
        let t = b + bytes;
        assert(t =~= (b + hb) + tb);
        crate::record::lemma_parse_record_extend(b + hb, tb, b.len() as int);
        assert(spec_parse_record(t, b.len() as int) == Ok::<(RecordView, int), ParseError>(
            (rs[0], b.len() + hb.len() as int),
        ));
        assert(spec_parse_records(t, b.len() + hb.len() as int, rs.len() - 1) == Ok::<
            (Seq<RecordView>, int),
            ParseError,
        >((rs.drop_first(), b.len() + bytes.len() as int)));
        assert(seq![rs[0]] + rs.drop_first() =~= rs);
    }
}

/// The message is well formed: supported opcode and rcode, section
/// counts equal to the section lengths, and well-formed entries.
pub open spec fn mv_wf(mv: MessageView) -> bool {
    &&& crate::header::spec_opcode_val(mv.header.flags) <= 2
    &&& crate::header::spec_rcode_val(mv.header.flags) <= 3
    &&& mv.header.n_question == mv.questions.len()
    &&& mv.header.n_answer == mv.resources.len()
    &&& mv.header.n_auth_res == mv.auth_resources.len()
    &&& mv.header.n_addi_rrs == mv.addi_resources.len()
    &&& questions_wf(mv.questions)
    &&& records_wf(mv.resources)
    &&& records_wf(mv.auth_resources)
    &&& records_wf(mv.addi_resources)
}

/// Every record's declared rdlength is consistent with what its rdata
/// encodes to at its position in the whole message. For records whose
/// rdata carries no name this is simply the fixed rdata size; for
/// name-bearing rdata it pins the declared length to the encoding,
/// compressed or not.
pub open spec fn msg_len_ok(mv: MessageView) -> bool {
    let (qb, m1) = spec_ser_questions(mv.questions, Map::empty(), 12);
    let (rb, m2) = spec_ser_records(mv.resources, m1, 12 + qb.len() as int);
    let (ab, m3) = spec_ser_records(mv.auth_resources, m2, 12 + qb.len() + rb.len() as int);
    &&& records_len_ok(mv.resources, m1, 12 + qb.len() as int)
    &&& records_len_ok(mv.auth_resources, m2, 12 + qb.len() + rb.len() as int)
    &&& records_len_ok(mv.addi_resources, m3, 12 + qb.len() + rb.len() + ab.len() as int)
}

/// For records carrying only addresses, rdlength consistency is
/// nothing more than declaring the fixed address sizes.
pub proof fn lemma_addr_records_len_ok(rs: Seq<RecordView>, m: Map<Labels, int>, base: int)
    requires
        forall|i: int|
            0 <= i < rs.len() ==> ((#[trigger] rs[i]).data is A && rs[i].length == 4) || (
            rs[i].data is AAAA && rs[i].length == 16),
    ensures
        records_len_ok(rs, m, base),
    decreases rs.len(),
{
    if rs.len() > 0 {
        let (nb, m1) = crate::labels::spec_ser_labels(rs[0].name, m, base);
        let (hb, m2) = spec_ser_record(rs[0], m, base);
        assert forall|i: int|
            0 <= i < rs.drop_first().len() implies ((#[trigger] rs.drop_first()[i]).data is A
            && rs.drop_first()[i].length == 4) || (rs.drop_first()[i].data is AAAA
            && rs.drop_first()[i].length == 16) by {
            assert(rs.drop_first()[i] == rs[i + 1]);
        }
        lemma_addr_records_len_ok(rs.drop_first(), m2, base + hb.len() as int);
    }
}

/// A message whose records carry only addresses with their fixed
/// sizes declared has consistent rdata lengths throughout.
pub proof fn lemma_addr_msg_len_ok(mv: MessageView)
    requires
        forall|i: int|
            0 <= i < mv.resources.len() ==> ((#[trigger] mv.resources[i]).data is A
                && mv.resources[i].length == 4) || (mv.resources[i].data is AAAA
                && mv.resources[i].length == 16),
        forall|i: int|
            0 <= i < mv.auth_resources.len() ==> ((#[trigger] mv.auth_resources[i]).data is A
                && mv.auth_resources[i].length == 4) || (mv.auth_resources[i].data is AAAA
                && mv.auth_resources[i].length == 16),
        forall|i: int|
            0 <= i < mv.addi_resources.len() ==> ((#[trigger] mv.addi_resources[i]).data is A
                && mv.addi_resources[i].length == 4) || (mv.addi_resources[i].data is AAAA
                && mv.addi_resources[i].length == 16),
    ensures
        msg_len_ok(mv),
{
    let (qb, m1) = spec_ser_questions(mv.questions, Map::empty(), 12);
    let (rb, m2) = spec_ser_records(mv.resources, m1, 12 + qb.len() as int);
    let (ab, m3) = spec_ser_records(mv.auth_resources, m2, 12 + qb.len() + rb.len() as int);
    lemma_addr_records_len_ok(mv.resources, m1, 12 + qb.len() as int);
    lemma_addr_records_len_ok(mv.auth_resources, m2, 12 + qb.len() + rb.len() as int);
    lemma_addr_records_len_ok(mv.addi_resources, m3, 12 + qb.len() + rb.len() + ab.len() as int);
}

/// One name is a (nonempty) suffix of another.
pub open spec fn suffix_of(s: Labels, n: Labels) -> bool {
    exists|i: int| 0 <= i < n.len() && s == n.skip(i)
}

/// Two names share no suffix at all.
pub open spec fn no_common_suffix(x: Labels, y: Labels) -> bool {
    forall|i: int, j: int|
        0 <= i < x.len() && 0 <= j < y.len() ==> #[trigger] x.skip(i) != #[trigger] y.skip(j)
}

/// The names are pairwise free of shared suffixes, so serializing
/// them can never emit a compression pointer.
pub open spec fn distinct_suffixes(names: Seq<Labels>) -> bool {
    forall|a: int, b: int|
        0 <= a < b < names.len() ==> no_common_suffix(#[trigger] names[a], #[trigger] names[b])
}

/// No name of `b` shares a suffix with any name of `a`.
pub open spec fn cross_fresh(a: Seq<Labels>, b: Seq<Labels>) -> bool {
    forall|i: int, j: int|
        0 <= i < a.len() && 0 <= j < b.len() ==> no_common_suffix(#[trigger] a[i], #[trigger] b[j])
}

/// Every key of the suffix map is a suffix of one of the names
/// already written.
pub open spec fn dom_in_suffixes(m: Map<Labels, int>, seen: Seq<Labels>) -> bool {
    forall|k: Labels|
        #[trigger] m.dom().contains(k) ==> exists|a: int|
            0 <= a < seen.len() && suffix_of(k, #[trigger] seen[a])
}

/// The names an rdata carries, in the order they are written.
pub open spec fn rdata_names(d: RdataView) -> Seq<Labels> {
    match d {
        RdataView::NS(ls) => seq![ls],
        RdataView::CNAME(ls) => seq![ls],
        RdataView::SOA(s) => seq![s.mname, s.rname],
        _ => Seq::empty(),
    }
}

/// The names a record writes: its owner name, then its rdata's names.
pub open spec fn record_names(r: RecordView) -> Seq<Labels> {
    seq![r.name] + rdata_names(r.data)
}

/// The names a record list writes, in order.
pub open spec fn records_names(rs: Seq<RecordView>) -> Seq<Labels>
    decreases rs.len(),
{
    if rs.len() == 0 {
        Seq::empty()
    } else {
        record_names(rs[0]) + records_names(rs.drop_first())
    }
}

/// All names of a message, in serialization order.
pub open spec fn msg_names(mv: MessageView) -> Seq<Labels> {
    mv.questions.map_values(|q: QuestionView| q.name) + records_names(mv.resources)
        + records_names(mv.auth_resources) + records_names(mv.addi_resources)
}

/// The size of an rdata when no name in it is compressed.
pub open spec fn plain_rdata_len(d: RdataView) -> int {
    match d {
        RdataView::A(_) => 4,
        RdataView::AAAA(_) => 16,
        RdataView::NS(ls) => crate::labels::plain_wire(ls).len() as int,
        RdataView::CNAME(ls) => crate::labels::plain_wire(ls).len() as int,
        RdataView::SOA(s) => crate::labels::plain_wire(s.mname).len()
            + crate::labels::plain_wire(s.rname).len() + 20 as int,
    }
}

/// Splitting a name list splits suffix-distinctness into the parts
/// and their cross-freshness.
proof fn lemma_distinct_split(a: Seq<Labels>, b: Seq<Labels>)
    requires
        distinct_suffixes(a + b),
    ensures
        distinct_suffixes(a),
        distinct_suffixes(b),
        cross_fresh(a, b),
{
    assert forall|x: int, y: int| 0 <= x < y < a.len() implies no_common_suffix(
        #[trigger] a[x],
        #[trigger] a[y],
    ) by {
        assert((a + b)[x] == a[x] && (a + b)[y] == a[y]);
    }
    assert forall|x: int, y: int| 0 <= x < y < b.len() implies no_common_suffix(
        #[trigger] b[x],
        #[trigger] b[y],
    ) by {
        assert((a + b)[a.len() + x] == b[x] && (a + b)[a.len() + y] == b[y]);
    }
    assert forall|i: int, j: int|
        0 <= i < a.len() && 0 <= j < b.len() implies no_common_suffix(
        #[trigger] a[i],
        #[trigger] b[j],
    ) by {
        assert((a + b)[i] == a[i] && (a + b)[a.len() + j] == b[j]);
    }
}

/// A name sharing no suffix with anything already written encodes
/// uncompressed, with every suffix map key still accounted for.
proof fn lemma_ser_fresh_name(n: Labels, m: Map<Labels, int>, base: int, seen: Seq<Labels>)
    requires
        dom_in_suffixes(m, seen),
        forall|a: int| 0 <= a < seen.len() ==> no_common_suffix(#[trigger] seen[a], n),
    ensures
        spec_ser_labels(n, m, base).0 == crate::labels::plain_wire(n),
        dom_in_suffixes(spec_ser_labels(n, m, base).1, seen.push(n)),
{
    assert forall|i: int| 0 <= i < n.len() implies !m.dom().contains(#[trigger] n.skip(i)) by {
        if m.dom().contains(n.skip(i)) {
            let a = choose|a: int| 0 <= a < seen.len() && suffix_of(n.skip(i), seen[a]);
            let j = choose|j: int| 0 <= j < seen[a].len() && n.skip(i) == seen[a].skip(j);
            assert(seen[a].skip(j) != n.skip(i));
        }
    }
    crate::labels::lemma_ser_plain(n, m, base);
    crate::labels::lemma_ser_domain(n, m, base);
    let m2 = spec_ser_labels(n, m, base).1;
    assert forall|k: Labels| #[trigger] m2.dom().contains(k) implies exists|a: int|
        0 <= a < seen.push(n).len() && suffix_of(k, #[trigger] seen.push(n)[a]) by {
        if m.dom().contains(k) {
            let a = choose|a: int| 0 <= a < seen.len() && suffix_of(k, seen[a]);
            assert(seen.push(n)[a] == seen[a]);
        } else {
            let i = choose|i: int| 0 <= i < n.len() && k == n.skip(i);
            assert(seen.push(n)[seen.len() as int] == n);
            assert(suffix_of(k, n));
        }
    }
}

/// The map keys stay within the written names' suffixes after one
/// more name, compressed or not.
proof fn lemma_ser_name_dom(n: Labels, m: Map<Labels, int>, base: int, seen: Seq<Labels>)
    requires
        dom_in_suffixes(m, seen),
    ensures
        dom_in_suffixes(spec_ser_labels(n, m, base).1, seen.push(n)),
{
    crate::labels::lemma_ser_domain(n, m, base);
    let m2 = spec_ser_labels(n, m, base).1;
    assert forall|k: Labels| #[trigger] m2.dom().contains(k) implies exists|a: int|
        0 <= a < seen.push(n).len() && suffix_of(k, #[trigger] seen.push(n)[a]) by {
        if m.dom().contains(k) {
            let a = choose|a: int| 0 <= a < seen.len() && suffix_of(k, seen[a]);
            assert(seen.push(n)[a] == seen[a]);
        } else {
            let i = choose|i: int| 0 <= i < n.len() && k == n.skip(i);
            assert(seen.push(n)[seen.len() as int] == n);
            assert(suffix_of(k, n));
        }
    }
}

/// One record whose names are fresh encodes its rdata uncompressed,
/// so declaring the plain rdata size is consistent; and the map keys
/// stay within the names written so far.
proof fn lemma_plain_record_len(r: RecordView, m: Map<Labels, int>, base: int, seen: Seq<Labels>)
    requires
        dom_in_suffixes(m, seen),
        cross_fresh(seen, record_names(r)),
        distinct_suffixes(record_names(r)),
        r.length == plain_rdata_len(r.data),
    ensures
        ({
            let (nb, m1) = crate::labels::spec_ser_labels(r.name, m, base);
            crate::record::spec_ser_rdata(r.data, m1, base + nb.len() + 10 as int).0.len()
                == r.length
        }),
        dom_in_suffixes(spec_ser_record(r, m, base).1, seen + record_names(r)),
{
    let (nb, m1) = crate::labels::spec_ser_labels(r.name, m, base);
    assert(record_names(r)[0] == r.name);
    lemma_ser_name_dom(r.name, m, base, seen);
    let base2 = base + nb.len() + 10 as int;
    let (db, m2) = crate::record::spec_ser_rdata(r.data, m1, base2);
    match r.data {
        RdataView::A(_) => {
            assert(seen + record_names(r) =~= seen.push(r.name));
        },
        RdataView::AAAA(_) => {
            assert(seen + record_names(r) =~= seen.push(r.name));
        },
        RdataView::NS(ls) => {
            assert(record_names(r)[1] == ls);
            assert forall|a: int| 0 <= a < seen.push(r.name).len() implies no_common_suffix(
                #[trigger] seen.push(r.name)[a],
                ls,
            ) by {
                if a < seen.len() {
                    assert(seen.push(r.name)[a] == seen[a]);
                } else {
                    assert(seen.push(r.name)[a] == r.name);
                    assert(no_common_suffix(record_names(r)[0], record_names(r)[1]));
                }
            }
            lemma_ser_fresh_name(ls, m1, base2, seen.push(r.name));
            assert(seen + record_names(r) =~= seen.push(r.name).push(ls));
        },
        RdataView::CNAME(ls) => {
            assert(record_names(r)[1] == ls);
            assert forall|a: int| 0 <= a < seen.push(r.name).len() implies no_common_suffix(
                #[trigger] seen.push(r.name)[a],
                ls,
            ) by {
                if a < seen.len() {
                    assert(seen.push(r.name)[a] == seen[a]);
                } else {
                    assert(seen.push(r.name)[a] == r.name);
                    assert(no_common_suffix(record_names(r)[0], record_names(r)[1]));
                }
            }
            lemma_ser_fresh_name(ls, m1, base2, seen.push(r.name));
            assert(seen + record_names(r) =~= seen.push(r.name).push(ls));
        },
        RdataView::SOA(s) => {
            assert(record_names(r)[1] == s.mname && record_names(r)[2] == s.rname);
            assert forall|a: int| 0 <= a < seen.push(r.name).len() implies no_common_suffix(
                #[trigger] seen.push(r.name)[a],
                s.mname,
            ) by {
                if a < seen.len() {
                    assert(seen.push(r.name)[a] == seen[a]);
                } else {
                    assert(seen.push(r.name)[a] == r.name);
                    assert(no_common_suffix(record_names(r)[0], record_names(r)[1]));
                }
            }
            lemma_ser_fresh_name(s.mname, m1, base2, seen.push(r.name));
            let (b1, mm1) = crate::labels::spec_ser_labels(s.mname, m1, base2);
            let seen2 = seen.push(r.name).push(s.mname);
            assert forall|a: int| 0 <= a < seen2.len() implies no_common_suffix(
                #[trigger] seen2[a],
                s.rname,
            ) by {
                if a < seen.len() {
                    assert(seen2[a] == seen[a]);
                } else if a == seen.len() {
                    assert(seen2[a] == r.name);
                    assert(no_common_suffix(record_names(r)[0], record_names(r)[2]));
                } else {
                    assert(seen2[a] == s.mname);
                    assert(no_common_suffix(record_names(r)[1], record_names(r)[2]));
                }
            }
            lemma_ser_fresh_name(s.rname, mm1, base2 + b1.len() as int, seen2);
            assert(seen + record_names(r) =~= seen2.push(s.rname));
        },
    }
}

/// A record list whose names are fresh and pairwise suffix-distinct
/// has consistent rdata lengths when each record declares its plain
/// rdata size; and the map keys stay within the names written so far.
proof fn lemma_plain_records_len_ok(
    rs: Seq<RecordView>,
    m: Map<Labels, int>,
    base: int,
    seen: Seq<Labels>,
)
    requires
        dom_in_suffixes(m, seen),
        cross_fresh(seen, records_names(rs)),
        distinct_suffixes(records_names(rs)),
        forall|i: int| 0 <= i < rs.len() ==> (#[trigger] rs[i]).length == plain_rdata_len(
            rs[i].data,
        ),
    ensures
        records_len_ok(rs, m, base),
        dom_in_suffixes(
            spec_ser_records(rs, m, base).1,
            seen + records_names(rs),
        ),
    decreases rs.len(),
{
    if rs.len() == 0 {
        assert(seen + records_names(rs) =~= seen);
    } else {
        let head_names = record_names(rs[0]);
        let tail_names = records_names(rs.drop_first());
        assert(records_names(rs) == head_names + tail_names);
        lemma_distinct_split(head_names, tail_names);
        assert forall|i: int, j: int|
            0 <= i < seen.len() && 0 <= j < head_names.len() implies no_common_suffix(
            #[trigger] seen[i],
            #[trigger] head_names[j],
        ) by {
            assert(records_names(rs)[j] == head_names[j]);
        }
        lemma_plain_record_len(rs[0], m, base, seen);
        let (hb, m2) = spec_ser_record(rs[0], m, base);
        let seen2 = seen + head_names;
        assert forall|i: int, j: int|
            0 <= i < seen2.len() && 0 <= j < tail_names.len() implies no_common_suffix(
            #[trigger] seen2[i],
            #[trigger] tail_names[j],
        ) by {
            assert(records_names(rs)[head_names.len() + j] == tail_names[j]);
            if i < seen.len() {
                assert(seen2[i] == seen[i]);
            } else {
                assert(seen2[i] == head_names[i - seen.len()]);
            }
        }
        assert forall|i: int|
            0 <= i < rs.drop_first().len() implies (#[trigger] rs.drop_first()[i]).length
            == plain_rdata_len(rs.drop_first()[i].data) by {
            assert(rs.drop_first()[i] == rs[i + 1]);
        }
        lemma_plain_records_len_ok(rs.drop_first(), m2, base + hb.len() as int, seen2);
        assert(seen2 + tail_names =~= seen + records_names(rs));
    }
}

/// The map keys stay within the question names after the question
/// section, whether or not anything compressed.
proof fn lemma_questions_dom(qs: Seq<QuestionView>, m: Map<Labels, int>, base: int, seen: Seq<Labels>)
    requires
        dom_in_suffixes(m, seen),
    ensures
        dom_in_suffixes(
            spec_ser_questions(qs, m, base).1,
            seen + qs.map_values(|q: QuestionView| q.name),
        ),
    decreases qs.len(),
{
    let qnames = qs.map_values(|q: QuestionView| q.name);
    if qs.len() == 0 {
        assert(seen + qnames =~= seen);
    } else {
        let (hb, m1) = spec_ser_question(qs[0], m, base);
        let (nb, m1n) = crate::labels::spec_ser_labels(qs[0].name, m, base);
        assert(m1 == m1n);
        lemma_ser_name_dom(qs[0].name, m, base, seen);
        lemma_questions_dom(qs.drop_first(), m1, base + hb.len() as int, seen.push(qs[0].name));
        let tail_names = qs.drop_first().map_values(|q: QuestionView| q.name);
        assert forall|j: int| 0 <= j < tail_names.len() implies #[trigger] tail_names[j]
            == qnames[j + 1] by {
            assert(qs.drop_first()[j] == qs[j + 1]);
        }
        assert(seen.push(qs[0].name) + tail_names =~= seen + qnames);
    }
}

/// A well-formed message whose names are pairwise suffix-distinct —
/// so that nothing in it compresses — and whose records declare their
/// uncompressed rdata sizes decodes back to exactly itself.
pub proof fn theorem_uncompressed_round_trip(mv: MessageView)
    requires
        mv_wf(mv),
        distinct_suffixes(msg_names(mv)),
        forall|i: int|
            0 <= i < mv.resources.len() ==> (#[trigger] mv.resources[i]).length == plain_rdata_len(
                mv.resources[i].data,
            ),
        forall|i: int|
            0 <= i < mv.auth_resources.len() ==> (#[trigger] mv.auth_resources[i]).length
                == plain_rdata_len(mv.auth_resources[i].data),
        forall|i: int|
            0 <= i < mv.addi_resources.len() ==> (#[trigger] mv.addi_resources[i]).length
                == plain_rdata_len(mv.addi_resources[i].data),
    ensures
        spec_parse_message(spec_ser_message(mv)) == Ok::<MessageView, ParseError>(mv),
{
    let qnames = mv.questions.map_values(|q: QuestionView| q.name);
    let rn1 = records_names(mv.resources);
    let rn2 = records_names(mv.auth_resources);
    let rn3 = records_names(mv.addi_resources);
    assert(msg_names(mv) == ((qnames + rn1) + rn2) + rn3) by {
        assert(qnames + rn1 + rn2 + rn3 =~= ((qnames + rn1) + rn2) + rn3);
    }
    lemma_distinct_split((qnames + rn1) + rn2, rn3);
    lemma_distinct_split(qnames + rn1, rn2);
    lemma_distinct_split(qnames, rn1);
    let em: Map<Labels, int> = Map::empty();
    let e: Seq<Labels> = Seq::empty();
    assert(dom_in_suffixes(em, e));
    lemma_questions_dom(mv.questions, em, 12, e);
    let (qb, m1) = spec_ser_questions(mv.questions, em, 12);
    assert(e + qnames =~= qnames);
    // answers
    assert(cross_fresh(qnames, rn1));
    lemma_plain_records_len_ok(mv.resources, m1, 12 + qb.len() as int, qnames);
    let (rb, m2) = spec_ser_records(mv.resources, m1, 12 + qb.len() as int);
    // authority
    assert(cross_fresh(qnames + rn1, rn2));
    lemma_plain_records_len_ok(
        mv.auth_resources,
        m2,
        12 + qb.len() + rb.len() as int,
        qnames + rn1,
    );
    let (ab, m3) = spec_ser_records(mv.auth_resources, m2, 12 + qb.len() + rb.len() as int);
    // additional
    assert(cross_fresh((qnames + rn1) + rn2, rn3));
    assert((qnames + rn1) + rn2 =~= qnames + rn1 + rn2);
    lemma_plain_records_len_ok(
        mv.addi_resources,
        m3,
        12 + qb.len() + rb.len() + ab.len() as int,
        (qnames + rn1) + rn2,
    );
    assert(msg_len_ok(mv));
    theorem_message_round_trip(mv);
}

/// Decoding a well-formed message's encoding gives back exactly that
/// message, name compression included: serializing and reparsing is
/// the identity on well-formed messages whose declared rdata lengths
/// are consistent. In particular it holds for every well-formed
/// message serialized without compression.
#[verifier::spinoff_prover]
#[verifier::rlimit(100)]
pub proof fn theorem_message_round_trip(mv: MessageView)
    requires
        mv_wf(mv),
        msg_len_ok(mv),
    ensures
        spec_parse_message(spec_ser_message(mv)) == Ok::<MessageView, ParseError>(mv),
{
    let hb = spec_header_bytes(mv.header);
    let (qb, m1) = spec_ser_questions(mv.questions, Map::empty(), 12);
    let (rb, m2) = spec_ser_records(mv.resources, m1, 12 + qb.len() as int);
    let (ab, m3) = spec_ser_records(mv.auth_resources, m2, 12 + qb.len() + rb.len() as int);
    let (db, m4) = spec_ser_records(
        mv.addi_resources,
        m3,
        12 + qb.len() + rb.len() + ab.len() as int,
    );
    let t = spec_ser_message(mv);
    assert(t == hb + qb + rb + ab + db);
    assert(hb.len() == 12) by {
        assert(hb =~= crate::spec_be16(mv.header.id) + crate::spec_be16(mv.header.flags)
            + crate::spec_be16(mv.header.n_question) + crate::spec_be16(mv.header.n_answer)
            + crate::spec_be16(mv.header.n_auth_res) + crate::spec_be16(mv.header.n_addi_rrs));
    }
    // header
    assert(t.subrange(0, 12) =~= hb);
    crate::header::lemma_header_bytes_parse(mv.header, t, 0);
    // questions
    assert(crate::labels::ctx_ok(hb, Map::<Labels, int>::empty()));
    lemma_ser_questions_parse(hb, Map::empty(), mv.questions);
    lemma_parse_questions_extend(hb + qb, rb + ab + db, 12, mv.questions.len() as int);
    assert(t =~= (hb + qb) + (rb + ab + db));
    let p1 = 12 + qb.len() as int;
    assert(spec_parse_questions(t, 12, mv.header.n_question as int) == Ok::<
        (Seq<QuestionView>, int),
        ParseError,
    >((mv.questions, p1)));
    // answer records
    lemma_ser_records_parse(hb + qb, m1, mv.resources);
    lemma_parse_records_extend((hb + qb) + rb, ab + db, p1, mv.resources.len() as int);
    assert(t =~= ((hb + qb) + rb) + (ab + db));
    let p2 = p1 + rb.len() as int;
    assert(spec_parse_records(t, p1, mv.header.n_answer as int) == Ok::<
        (Seq<RecordView>, int),
        ParseError,
    >((mv.resources, p2)));
    // authority records
    lemma_ser_records_parse((hb + qb) + rb, m2, mv.auth_resources);
    lemma_parse_records_extend(((hb + qb) + rb) + ab, db, p2, mv.auth_resources.len() as int);
    assert(t =~= (((hb + qb) + rb) + ab) + db);
    let p3 = p2 + ab.len() as int;
    assert(spec_parse_records(t, p2, mv.header.n_auth_res as int) == Ok::<
        (Seq<RecordView>, int),
        ParseError,
    >((mv.auth_resources, p3)));
    // additional records
    lemma_ser_records_parse(((hb + qb) + rb) + ab, m3, mv.addi_resources);
    assert(t =~= (((hb + qb) + rb) + ab) + db);
    let p4 = p3 + db.len() as int;
    assert(spec_parse_records(t, p3, mv.header.n_addi_rrs as int) == Ok::<
        (Seq<RecordView>, int),
        ParseError,
    >((mv.addi_resources, p4)));
}

/// Copies a question list.
pub(crate) fn clone_questions(v: &Vec<Question>) -> (r: Vec<Question>)
    ensures
        r.deep_view() == v.deep_view(),
        r@.len() == v@.len(),
{
    let mut out: Vec<Question> = Vec::new();
    let n = v.len();
    let mut i: usize = 0;
    while i < n
        invariant
            i <= n,
            n == v@.len(),
            out@.len() == i,
            out.deep_view() =~= v.deep_view().subrange(0, i as int),
        decreases n - i,
    {
        let q = v[i].clone();
        out.push(q);
        proof {
            assert(out.deep_view() =~= v.deep_view().subrange(0, i + 1));
        }
        i = i + 1;
    }
    proof {
        assert(out.deep_view() =~= v.deep_view());
    }
    out
}

/// Copies a record list.
pub(crate) fn clone_records(v: &Vec<ResourceRecord>) -> (r: Vec<ResourceRecord>)
    ensures
        r.deep_view() == v.deep_view(),
        r@.len() == v@.len(),
{
    let mut out: Vec<ResourceRecord> = Vec::new();
    let n = v.len();
    let mut i: usize = 0;
    while i < n
        invariant
            i <= n,
            n == v@.len(),
            out@.len() == i,
            out.deep_view() =~= v.deep_view().subrange(0, i as int),
        decreases n - i,
    {
        let rec = v[i].clone();
        out.push(rec);
        proof {
            assert(out.deep_view() =~= v.deep_view().subrange(0, i + 1));
        }
        i = i + 1;
    }
    proof {
        assert(out.deep_view() =~= v.deep_view());
    }
    out
}

impl Message {
    /// A fresh query message: new header, no entries anywhere.
    pub fn new() -> (r: Message)
        ensures
            r@.header.flags == 0,
            r@.header.n_question == 0,
            r@.header.n_answer == 0,
            r@.header.n_auth_res == 0,
            r@.header.n_addi_rrs == 0,
            r@.questions == Seq::<QuestionView>::empty(),
            r@.resources == Seq::<RecordView>::empty(),
            r@.auth_resources == Seq::<RecordView>::empty(),
            r@.addi_resources == Seq::<RecordView>::empty(),
    {
        let r = Message {
            header: Header::new(),
            questions: Vec::new(),
            resources: Vec::new(),
            auth_resources: Vec::new(),
            addi_resources: Vec::new(),
        };
        proof {
            assert(r@.questions =~= Seq::<QuestionView>::empty());
            assert(r@.resources =~= Seq::<RecordView>::empty());
            assert(r@.auth_resources =~= Seq::<RecordView>::empty());
            assert(r@.addi_resources =~= Seq::<RecordView>::empty());
        }
        r
    }

    /// A reply skeleton for a request: reply header, the request's
    /// questions copied over and counted, and no records yet.
    pub fn reply_to(request: &Message) -> (r: Message)
        requires
            request@.questions.len() <= u16::MAX,
        ensures
            r@.header.id == request@.header.id,
            crate::header::spec_qr(r@.header.flags),
            !crate::header::spec_aa(r@.header.flags),
            !crate::header::spec_tc(r@.header.flags),
            crate::header::spec_rd(r@.header.flags),
            crate::header::spec_ra(r@.header.flags),
            crate::header::spec_opcode_val(r@.header.flags) == crate::header::spec_opcode_val(
                request@.header.flags,
            ),
            crate::header::spec_rcode_val(r@.header.flags) == crate::header::spec_rcode_val(
                request@.header.flags,
            ),
            r@.header.n_question == request@.questions.len(),
            r@.questions == request@.questions,
            r@.header.n_answer == 0 && r@.header.n_auth_res == 0 && r@.header.n_addi_rrs == 0,
            r@.resources == Seq::<RecordView>::empty(),
            r@.auth_resources == Seq::<RecordView>::empty(),
            r@.addi_resources == Seq::<RecordView>::empty(),
    {
        let mut header = Header::reply_to(&request.header);
        let questions = clone_questions(&request.questions);
        header.n_question = questions.len() as u16;
        let r = Message {
            header,
            questions,
            resources: Vec::new(),
            auth_resources: Vec::new(),
            addi_resources: Vec::new(),
        };
        proof {
            assert(r@.resources =~= Seq::<RecordView>::empty());
            assert(r@.auth_resources =~= Seq::<RecordView>::empty());
            assert(r@.addi_resources =~= Seq::<RecordView>::empty());
        }
        r
    }

    /// Takes another message's answer and authority sections and
    /// counts, for filling a reply from an upstream response.
    pub fn copy_resources(&mut self, other: &Self)
        ensures
            final(self).header.n_answer == other@.header.n_answer,
            final(self).header.n_auth_res == other@.header.n_auth_res,
            final(self)@.resources == other@.resources,
            final(self)@.auth_resources == other@.auth_resources,
            final(self)@.questions == old(self)@.questions,
            final(self)@.addi_resources == old(self)@.addi_resources,
            final(self).header == (Header {
                n_answer: other@.header.n_answer,
                n_auth_res: other@.header.n_auth_res,
                ..old(self)@.header
            }),
    {
        self.header.n_answer = other.header.n_answer;
        self.header.n_auth_res = other.header.n_auth_res;
        self.resources = clone_records(&other.resources);
        self.auth_resources = clone_records(&other.auth_resources);
    }

    /// Appends a question and counts it in the header.
    pub fn add_question(&mut self, question: Question)
        requires
            old(self)@.header.n_question < u16::MAX,
        ensures
            final(self)@.questions == old(self)@.questions.push(question@),
            final(self).header == (Header {
                n_question: (old(self)@.header.n_question + 1) as u16,
                ..old(self)@.header
            }),
            final(self)@.resources == old(self)@.resources,
            final(self)@.auth_resources == old(self)@.auth_resources,
            final(self)@.addi_resources == old(self)@.addi_resources,
    {
        let ghost pre = self.questions;
        self.questions.push(question);
        self.header.n_question = self.header.n_question + 1;
        proof {
            assert(self.questions.deep_view() =~= pre.deep_view().push(
                self.questions@[self.questions@.len() - 1].deep_view(),
            ));
        }
    }

    /// Appends an answer record and counts it in the header.
    pub fn add_resource(&mut self, resource: ResourceRecord)
        requires
            old(self)@.header.n_answer < u16::MAX,
        ensures
            final(self)@.resources == old(self)@.resources.push(resource@),
            final(self).header == (Header {
                n_answer: (old(self)@.header.n_answer + 1) as u16,
                ..old(self)@.header
            }),
            final(self)@.questions == old(self)@.questions,
            final(self)@.auth_resources == old(self)@.auth_resources,
            final(self)@.addi_resources == old(self)@.addi_resources,
    {
        let ghost pre = self.resources;
        self.resources.push(resource);
        self.header.n_answer = self.header.n_answer + 1;
        proof {
            assert(self.resources.deep_view() =~= pre.deep_view().push(
                self.resources@[self.resources@.len() - 1].deep_view(),
            ));
        }
    }

    /// Encodes the whole message into one datagram.
    pub fn serialize(&self) -> (out: Vec<u8>)
        requires
            msg_names_wf(self@),
        ensures
            out@ == spec_ser_message(self@),
    {
        let mut context = SerializeContext::new();
        self.header.serialize(&mut context);
        let ghost hb = spec_header_bytes(self@.header);
        proof {
            assert(context.buf() =~= hb);
            assert(hb.len() == 12);
        }
        proof {
            assert forall|i: int| 0 <= i < self.questions@.len() implies wf_labels((
            #[trigger] self.questions.deep_view()[i]).name) by {
                assert(self@.questions[i] == self.questions.deep_view()[i]);
            }
            assert forall|i: int|
                0 <= i < self.resources@.len() implies wf_labels((
            #[trigger] self.resources.deep_view()[i]).name) && rdata_wf(
                self.resources.deep_view()[i].data,
            ) by {
                assert(self@.resources[i] == self.resources.deep_view()[i]);
            }
            assert forall|i: int|
                0 <= i < self.auth_resources@.len() implies wf_labels((
            #[trigger] self.auth_resources.deep_view()[i]).name) && rdata_wf(
                self.auth_resources.deep_view()[i].data,
            ) by {
                assert(self@.auth_resources[i] == self.auth_resources.deep_view()[i]);
            }
            assert forall|i: int|
                0 <= i < self.addi_resources@.len() implies wf_labels((
            #[trigger] self.addi_resources.deep_view()[i]).name) && rdata_wf(
                self.addi_resources.deep_view()[i].data,
            ) by {
                assert(self@.addi_resources[i] == self.addi_resources.deep_view()[i]);
            }
        }
        serialize_questions(&self.questions, &mut context);
        let ghost qr = spec_ser_questions(self@.questions, Map::empty(), 12);
        serialize_records(&self.resources, &mut context);
        let ghost rr = spec_ser_records(self@.resources, qr.1, 12 + qr.0.len() as int);
        serialize_records(&self.auth_resources, &mut context);
        let ghost ar = spec_ser_records(
            self@.auth_resources,
            rr.1,
            12 + qr.0.len() + rr.0.len() as int,
        );
        serialize_records(&self.addi_resources, &mut context);
        proof {
            assert(context.buf() =~= spec_ser_message(self@));
        }
        context.to_vec()
    }

    /// Decodes one datagram into a message, consuming as many entries
    /// per section as the header declares.
    pub fn parse(buff: Vec<u8>) -> (r: Result<Message, ParseError>)
        ensures
            match r {
                Ok(m) => spec_parse_message(buff@) == Ok::<MessageView, ParseError>(m@),
                Err(e) => spec_parse_message(buff@) == Err::<MessageView, ParseError>(e),
            },
    {
        let mut context = ParseContext::new(buff);
        let ghost b = context.buf();
        let header = match Header::parse(&mut context) {
            Ok(h) => h,
            Err(e) => {
                return Err(e);
            },
        };
        let questions = match parse_questions(&mut context, header.n_question) {
            Ok(qs) => qs,
            Err(e) => {
                return Err(e);
            },
        };
        let resources = match parse_records(&mut context, header.n_answer) {
            Ok(rs) => rs,
            Err(e) => {
                return Err(e);
            },
        };
        let auth_resources = match parse_records(&mut context, header.n_auth_res) {
            Ok(rs) => rs,
            Err(e) => {
                return Err(e);
            },
        };
        let addi_resources = match parse_records(&mut context, header.n_addi_rrs) {
            Ok(rs) => rs,
            Err(e) => {
                return Err(e);
            },
        };
        Ok(Message { header, questions, resources, auth_resources, addi_resources })
    }
}

/// Encodes each question in order.
fn serialize_questions(qs: &Vec<Question>, context: &mut SerializeContext)
    requires
        old(context).inv(),
        forall|i: int| 0 <= i < qs@.len() ==> wf_labels((#[trigger] qs.deep_view()[i]).name),
    ensures
        final(context).inv(),
        ({
            let (bytes, m2) = spec_ser_questions(
                qs.deep_view(),
                old(context).locs(),
                old(context).buf().len() as int,
            );
            final(context).buf() == old(context).buf() + bytes && final(context).locs() == m2
        }),
{
    let ghost obuf = context.buf();
    let ghost olocs = context.locs();
    let n = qs.len();
    proof {
        assert(qs.deep_view().skip(0) =~= qs.deep_view());
        assert(context.buf().skip(obuf.len() as int) =~= Seq::<u8>::empty());
    }
    let mut i: usize = 0;
    while i < n
        invariant
            i <= n,
            n == qs@.len(),
            obuf == old(context).buf(),
            olocs == old(context).locs(),
            context.inv(),
            forall|k: int| 0 <= k < qs@.len() ==> wf_labels((#[trigger] qs.deep_view()[k]).name),
            obuf.len() <= context.buf().len(),
            context.buf().subrange(0, obuf.len() as int) == obuf,
            ({
                let written = context.buf().skip(obuf.len() as int);
                let (tb, tm) = spec_ser_questions(
                    qs.deep_view().skip(i as int),
                    context.locs(),
                    context.buf().len() as int,
                );
                spec_ser_questions(qs.deep_view(), olocs, obuf.len() as int) == (
                    written + tb,
                    tm,
                )
            }),
        decreases n - i,
    {
        let ghost cur_buf = context.buf();
        let ghost cur_locs = context.locs();
        let ghost written = cur_buf.skip(obuf.len() as int);
        let ghost sfx = qs.deep_view().skip(i as int);
        qs[i].serialize(context);
        proof {
            assert(sfx[0] == qs.deep_view()[i as int]);
            assert(sfx.drop_first() =~= qs.deep_view().skip(i + 1));
            let (hb, m1) = spec_ser_question(sfx[0], cur_locs, cur_buf.len() as int);
            assert(context.buf() =~= cur_buf + hb);
            assert(context.buf().skip(obuf.len() as int) =~= written + hb);
            let (tb, tm) = spec_ser_questions(
                qs.deep_view().skip(i + 1),
                context.locs(),
                context.buf().len() as int,
            );
            assert(written + (hb + tb) =~= (written + hb) + tb);
            assert(context.buf().subrange(0, obuf.len() as int) =~= obuf);
        }
        i = i + 1;
    }
    proof {
        assert(qs.deep_view().skip(n as int) =~= Seq::<QuestionView>::empty());
    }
}

/// Encodes each record in order.
fn serialize_records(rs: &Vec<ResourceRecord>, context: &mut SerializeContext)
    requires
        old(context).inv(),
        forall|i: int|
            0 <= i < rs@.len() ==> wf_labels((#[trigger] rs.deep_view()[i]).name) && rdata_wf(
                rs.deep_view()[i].data,
            ),
    ensures
        final(context).inv(),
        ({
            let (bytes, m2) = spec_ser_records(
                rs.deep_view(),
                old(context).locs(),
                old(context).buf().len() as int,
            );
            final(context).buf() == old(context).buf() + bytes && final(context).locs() == m2
        }),
{
    let ghost obuf = context.buf();
    let ghost olocs = context.locs();
    let n = rs.len();
    proof {
        assert(rs.deep_view().skip(0) =~= rs.deep_view());
        assert(context.buf().skip(obuf.len() as int) =~= Seq::<u8>::empty());
    }
    let mut i: usize = 0;
    while i < n
        invariant
            i <= n,
            n == rs@.len(),
            obuf == old(context).buf(),
            olocs == old(context).locs(),
            context.inv(),
            forall|k: int|
                0 <= k < rs@.len() ==> wf_labels((#[trigger] rs.deep_view()[k]).name) && rdata_wf(
                    rs.deep_view()[k].data,
                ),
            obuf.len() <= context.buf().len(),
            context.buf().subrange(0, obuf.len() as int) == obuf,
            ({
                let written = context.buf().skip(obuf.len() as int);
                let (tb, tm) = spec_ser_records(
                    rs.deep_view().skip(i as int),
                    context.locs(),
                    context.buf().len() as int,
                );
                spec_ser_records(rs.deep_view(), olocs, obuf.len() as int) == (written + tb, tm)
            }),
        decreases n - i,
    {
        let ghost cur_buf = context.buf();
        let ghost cur_locs = context.locs();
        let ghost written = cur_buf.skip(obuf.len() as int);
        let ghost sfx = rs.deep_view().skip(i as int);
        rs[i].serialize(context);
        proof {
            assert(sfx[0] == rs.deep_view()[i as int]);
            assert(sfx.drop_first() =~= rs.deep_view().skip(i + 1));
            let (hb, m1) = spec_ser_record(sfx[0], cur_locs, cur_buf.len() as int);
            assert(context.buf() =~= cur_buf + hb);
            assert(context.buf().skip(obuf.len() as int) =~= written + hb);
            let (tb, tm) = spec_ser_records(
                rs.deep_view().skip(i + 1),
                context.locs(),
                context.buf().len() as int,
            );
            assert(written + (hb + tb) =~= (written + hb) + tb);
            assert(context.buf().subrange(0, obuf.len() as int) =~= obuf);
        }
        i = i + 1;
    }
    proof {
        assert(rs.deep_view().skip(n as int) =~= Seq::<RecordView>::empty());
    }
}

/// Decodes `n` consecutive questions at the context's cursor.
fn parse_questions(context: &mut ParseContext, n: u16) -> (r: Result<Vec<Question>, ParseError>)
    ensures
        final(context).buf() == old(context).buf(),
        ({
            let s = spec_parse_questions(old(context).buf(), old(context).pos(), n as int);
            match r {
                Ok(qs) => s matches Ok(p) && p.0 == qs.deep_view() && final(context).pos() == p.1,
                Err(e) => s == Err::<(Seq<QuestionView>, int), ParseError>(e),
            }
        }),
{
    let ghost b = context.buf();
    let ghost pos0 = context.pos();
    let mut out: Vec<Question> = Vec::new();
    let mut k: u16 = 0;
    proof {
        assert(out.deep_view() =~= Seq::<QuestionView>::empty());
    }
    while k < n
        invariant
            k <= n,
            b == old(context).buf(),
            pos0 == old(context).pos(),
            context.buf() == b,
            out.deep_view().len() == k,
            ({
                let whole = spec_parse_questions(b, pos0, n as int);
                let rest = spec_parse_questions(b, context.pos(), n - k);
                match rest {
                    Ok((qs, end)) => whole == Ok::<(Seq<QuestionView>, int), ParseError>(
                        (out.deep_view() + qs, end),
                    ),
                    Err(e) => whole == Err::<(Seq<QuestionView>, int), ParseError>(e),
                }
            }),
        decreases n - k,
    {
        let ghost pre_pos = context.pos();
        let ghost pre = out.deep_view();
        let q = match Question::parse(context) {
            Ok(q) => q,
            Err(e) => {
                return Err(e);
            },
        };
        out.push(q);
        proof {
            assert(out.deep_view() =~= pre.push(out@[out@.len() - 1].deep_view()));
            let rest2 = spec_parse_questions(b, context.pos(), n - k - 1);
            if rest2 is Ok {
                let (qs2, end2) = rest2->Ok_0;
                assert(pre + (seq![out.deep_view()[out.deep_view().len() - 1]] + qs2)
                    =~= out.deep_view() + qs2);
            }
        }
        k = k + 1;
    }
    proof {
        assert(out.deep_view() + Seq::<QuestionView>::empty() =~= out.deep_view());
    }
    Ok(out)
}

/// Decodes `n` consecutive records at the context's cursor.
fn parse_records(context: &mut ParseContext, n: u16) -> (r: Result<
    Vec<ResourceRecord>,
    ParseError,
>)
    ensures
        final(context).buf() == old(context).buf(),
        ({
            let s = spec_parse_records(old(context).buf(), old(context).pos(), n as int);
            match r {
                Ok(rs) => s matches Ok(p) && p.0 == rs.deep_view() && final(context).pos() == p.1,
                Err(e) => s == Err::<(Seq<RecordView>, int), ParseError>(e),
            }
        }),
{
    let ghost b = context.buf();
    let ghost pos0 = context.pos();
    let mut out: Vec<ResourceRecord> = Vec::new();
    let mut k: u16 = 0;
    proof {
        assert(out.deep_view() =~= Seq::<RecordView>::empty());
    }
    while k < n
        invariant
            k <= n,
            b == old(context).buf(),
            pos0 == old(context).pos(),
            context.buf() == b,
            out.deep_view().len() == k,
            ({
                let whole = spec_parse_records(b, pos0, n as int);
                let rest = spec_parse_records(b, context.pos(), n - k);
                match rest {
                    Ok((rs, end)) => whole == Ok::<(Seq<RecordView>, int), ParseError>(
                        (out.deep_view() + rs, end),
                    ),
                    Err(e) => whole == Err::<(Seq<RecordView>, int), ParseError>(e),
                }
            }),
        decreases n - k,
    {
        let ghost pre = out.deep_view();
        let rec = match ResourceRecord::parse(context) {
            Ok(rec) => rec,
            Err(e) => {
                return Err(e);
            },
        };
        out.push(rec);
        proof {
            assert(out.deep_view() =~= pre.push(out@[out@.len() - 1].deep_view()));
            let rest2 = spec_parse_records(b, context.pos(), n - k - 1);
            if rest2 is Ok {
                let (rs2, end2) = rest2->Ok_0;
                assert(pre + (seq![out.deep_view()[out.deep_view().len() - 1]] + rs2)
                    =~= out.deep_view() + rs2);
            }
        }
        k = k + 1;
    }
    proof {
        assert(out.deep_view() + Seq::<RecordView>::empty() =~= out.deep_view());
    }
    Ok(out)
}

} // verus!
