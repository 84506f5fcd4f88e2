//! A query entry: a name followed by two-byte record type and class
//! codes.

use vstd::prelude::*;

use crate::common::{FlagClassCode, FlagRecordType, ParseContext, SerializeContext};
use crate::errors::ParseError;
use crate::labels::{
    parse_labels_at, spec_parse_labels, spec_ser_labels, wf_labels, LabelSeq, Labels,
};
use crate::{spec_be16, spec_u16_of_bytes, u16_of_bytes};

verus! {

/// The mathematical content of a question.
pub struct QuestionView {
    pub name: Labels,
    pub record_type: u16,
    pub class_code: u16,
}

/// A query entry.
#[derive(Debug)]
pub struct Question {
    pub name: LabelSeq,
    pub record_type: u16,
    pub class_code: u16,
}

impl View for Question {
    type V = QuestionView;

    open spec fn view(&self) -> QuestionView {
        QuestionView {
            name: self.name@,
            record_type: self.record_type,
            class_code: self.class_code,
        }
    }
}

impl Clone for Question {
    fn clone(&self) -> (r: Self)
        ensures
            r@ == self@,
    {
        let r = Question {
            name: self.name.clone(),
            record_type: self.record_type,
            class_code: self.class_code,
        };
        r
    }
}

/// Decodes a question at position `pos`: a name, then four bytes.
pub open spec fn spec_parse_question(b: Seq<u8>, pos: int) -> Result<
    (QuestionView, int),
    ParseError,
> {
    match spec_parse_labels(b, pos, pos) {
        Err(e) => Err(e),
        Ok((name, p)) => if p + 4 > b.len() {
            Err(ParseError::UnexpectedEnd)
        } else {
            Ok(
                (
                    QuestionView {
                        name,
                        record_type: spec_u16_of_bytes(b[p], b[p + 1]),
                        class_code: spec_u16_of_bytes(b[p + 2], b[p + 3]),
                    },
                    p + 4,
                ),
            )
        },
    }
}

/// Encodes a question at offset `base` against the suffix map `m`.
pub open spec fn spec_ser_question(q: QuestionView, m: Map<Labels, int>, base: int) -> (
    Seq<u8>,
    Map<Labels, int>,
) {
    let (nb, m2) = spec_ser_labels(q.name, m, base);
    (nb + spec_be16(q.record_type) + spec_be16(q.class_code), m2)
}

/// A decoded question is unaffected by bytes appended after the
/// buffer.
pub proof fn lemma_parse_question_extend(b: Seq<u8>, ext: Seq<u8>, pos: int)
    requires
        spec_parse_question(b, pos) is Ok,
    ensures
        spec_parse_question(b + ext, pos) == spec_parse_question(b, pos),
{
    let t = b + ext;
    crate::labels::lemma_parse_ok_bounds(b, pos, pos);
    crate::labels::lemma_parse_extend(b, ext, pos, pos);
    let (name, p) = spec_parse_labels(b, pos, pos)->Ok_0;
    assert(t[p] == b[p] && t[p + 1] == b[p + 1] && t[p + 2] == b[p + 2] && t[p + 3] == b[p + 3]);
}

/// A question serialized at the end of a buffer with a sound suffix
/// map decodes back to exactly that question, and the map stays
/// sound.
pub proof fn lemma_ser_question_parses(b: Seq<u8>, m: Map<Labels, int>, q: QuestionView)
    requires
        crate::labels::ctx_ok(b, m),
        wf_labels(q.name),
    ensures
        ({
            let (qb, m2) = spec_ser_question(q, m, b.len() as int);
            &&& spec_parse_question(b + qb, b.len() as int) == Ok::<
                (QuestionView, int),
                ParseError,
            >((q, b.len() + qb.len() as int))
            &&& crate::labels::ctx_ok(b + qb, m2)
        }),
{
    let (nb, m2) = spec_ser_labels(q.name, m, b.len() as int);
    crate::labels::lemma_ser_name_parses(b, m, q.name);
    let fixed = spec_be16(q.record_type) + spec_be16(q.class_code);
    let (qb, m2b) = spec_ser_question(q, m, b.len() as int);
    assert(qb =~= nb + fixed);
    let t = b + qb;
    assert(t =~= (b + nb) + fixed);
    crate::labels::lemma_parse_extend(b + nb, fixed, b.len() as int, b.len() as int);
    assert(spec_parse_labels(b + nb, b.len() as int, b.len() as int) == Ok::<
        (Labels, int),
        ParseError,
    >((q.name, b.len() + nb.len() as int)));
    let p = b.len() + nb.len() as int;
    assert(t[p] == fixed[0] && t[p + 1] == fixed[1] && t[p + 2] == fixed[2]
        && t[p + 3] == fixed[3]);
    crate::lemma_be16_round_trip(q.record_type);
    crate::lemma_be16_round_trip(q.class_code);
    crate::labels::lemma_ctx_ok_extend(b + nb, fixed, m2);
}

/// Name compression pays off and loses nothing: when two questions
/// share any name suffix, serializing them together takes strictly
/// fewer bytes than serializing each on its own, and decoding the
/// compressed output reproduces both label sequences exactly.
pub proof fn theorem_shared_suffix_compression(q1: QuestionView, q2: QuestionView)
    requires
        wf_labels(q1.name),
        wf_labels(q2.name),
        exists|i: int, j: int|
            0 <= i < q1.name.len() && 0 <= j < q2.name.len() && #[trigger] q1.name.skip(i)
                == #[trigger] q2.name.skip(j),
        crate::labels::cat_literals(q1.name).len() < 16384,
    ensures
        ({
            let (b1, m1) = spec_ser_question(q1, Map::empty(), 0);
            let (b2, m2) = spec_ser_question(q2, m1, b1.len() as int);
            &&& b1.len() == crate::labels::plain_wire(q1.name).len() + 4
            &&& b2.len() < crate::labels::plain_wire(q2.name).len() + 4
            &&& spec_parse_question(b1 + b2, 0) == Ok::<(QuestionView, int), ParseError>(
                (q1, b1.len() as int),
            )
            &&& spec_parse_question(b1 + b2, b1.len() as int) == Ok::<
                (QuestionView, int),
                ParseError,
            >((q2, b1.len() + b2.len() as int))
        }),
{
    let e: Seq<u8> = Seq::empty();
    let em: Map<Labels, int> = Map::empty();
    let (nb1, nm1) = spec_ser_labels(q1.name, em, 0);
    let (b1, m1) = spec_ser_question(q1, em, 0);
    assert(m1 == nm1);
    assert(forall|i: int| 0 <= i < q1.name.len() ==> !em.dom().contains(#[trigger] q1.name.skip(i)));
    crate::labels::lemma_ser_plain(q1.name, em, 0);
    assert(nb1 == crate::labels::plain_wire(q1.name));
    assert(b1.len() == nb1.len() + 4);
    crate::labels::lemma_ser_all_suffixes(q1.name, em, 0);
    let i0 = choose|i: int, j: int|
        0 <= i < q1.name.len() && 0 <= j < q2.name.len() && #[trigger] q1.name.skip(i)
            == #[trigger] q2.name.skip(j);
    // the shared suffix is now recorded, so the second name compresses
    let (nb2, nm2) = spec_ser_labels(q2.name, m1, b1.len() as int);
    crate::labels::lemma_ser_len(q2.name, m1, b1.len() as int);
    let (b2, m2) = spec_ser_question(q2, m1, b1.len() as int);
    assert(b2.len() == nb2.len() + 4);
    assert(nb2.len() < crate::labels::plain_wire(q2.name).len());
    // both names decode back from the shared buffer
    assert(crate::labels::ctx_ok(e, em));
    lemma_ser_question_parses(e, em, q1);
    assert(e + b1 =~= b1);
    lemma_ser_question_parses(b1, m1, q2);
    lemma_parse_question_extend(b1, b2, 0);
}

impl Question {
    /// A question for the given name and record type, in the internet
    /// class.
    pub fn new(name: LabelSeq, record_type: FlagRecordType) -> (r: Question)
        ensures
            r@.name == name@,
            r@.record_type == record_type.spec_bits(),
            r@.class_code == FlagClassCode::IN.spec_bits(),
    {
        Question { name, record_type: record_type.bits(), class_code: FlagClassCode::IN.bits() }
    }

    /// Encodes the question at the end of the output buffer.
    pub fn serialize(&self, context: &mut SerializeContext)
        requires
            old(context).inv(),
            wf_labels(self@.name),
        ensures
            final(context).inv(),
            ({
                let (bytes, m2) = spec_ser_question(
                    self@,
                    old(context).locs(),
                    old(context).buf().len() as int,
                );
                final(context).buf() == old(context).buf() + bytes && final(context).locs() == m2
            }),
    {
        let ghost obuf = context.buf();
        let ghost olocs = context.locs();
        self.name.serialize(context);
        let ghost nb = spec_ser_labels(self@.name, olocs, obuf.len() as int).0;
        context.push((self.record_type / 256) as u8);
        context.push((self.record_type % 256) as u8);
        context.push((self.class_code / 256) as u8);
        context.push((self.class_code % 256) as u8);
        proof {
            assert(context.buf() =~= obuf + (nb + spec_be16(self@.record_type) + spec_be16(
                self@.class_code,
            )));
        }
    }

    /// Decodes a question at the context's cursor and advances past it.
    pub fn parse(context: &mut ParseContext) -> (r: Result<Question, ParseError>)
        ensures
            final(context).buf() == old(context).buf(),
            ({
                let s = spec_parse_question(old(context).buf(), old(context).pos());
                match r {
                    Ok(q) => s matches Ok(p) && p.0 == q@ && final(context).pos() == p.1,
                    Err(e) => s == Err::<(QuestionView, int), ParseError>(e)
                        && final(context).pos() == old(context).pos(),
                }
            }),
    {
        let pos = context.current_idx();
        let (labels, p) = match parse_labels_at(context.buf_ref(), pos, pos) {
            Ok(ok) => ok,
            Err(e) => {
                return Err(e);
            },
        };
        let total = context.len();
        if total - p < 4 {
            return Err(ParseError::UnexpectedEnd);
        }
        let record_type = u16_of_bytes(context.byte_at(p), context.byte_at(p + 1));
        let class_code = u16_of_bytes(context.byte_at(p + 2), context.byte_at(p + 3));
        context.advance(p + 4 - pos);
        Ok(Question { name: LabelSeq { labels }, record_type, class_code })
    }
}

} // verus!
