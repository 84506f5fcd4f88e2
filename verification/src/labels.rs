//! Domain names on the wire: length-prefixed labels, the terminating
//! zero byte, and backward-only compression pointers.
//!
//! `spec_parse_labels` is the ground truth for decoding: it reads from
//! an absolute position in the whole datagram, and every pointer must
//! target an offset strictly below the current bound (initially the
//! position where the name started), which both rejects self-reference
//! and guarantees termination. `spec_ser_labels` is the ground truth
//! for encoding against a suffix-to-offset map.

use vstd::prelude::*;

use crate::common::{ParseContext, SerializeContext};
use crate::errors::ParseError;

verus! {

use vstd::std_specs::cmp::PartialEqSpec;
use vstd::string::StringSliceAdditionalSpecFns;

/// A decoded name: one byte sequence per label.
pub type Labels = Seq<Seq<u8>>;

/// A single label fits the wire format: one length byte covering 1..=63 bytes.
pub open spec fn wf_label(l: Seq<u8>) -> bool {
    1 <= l.len() <= 63
}

/// Every label of the name fits the wire format.
pub open spec fn wf_labels(ls: Labels) -> bool {
    forall|i: int| 0 <= i < ls.len() ==> wf_label(#[trigger] ls[i])
}

/// Decodes a name at absolute position `pos` of the datagram `b`.
///
/// `bound` is the offset every compression pointer must stay strictly
/// below; at the top of a name it equals the position where the name
/// starts, and each pointer jump lowers it to the pointer's target, so
/// chains of pointers strictly descend and must terminate. On success
/// the result carries the labels and the absolute position just past
/// the bytes consumed at the outermost level.
pub open spec fn spec_parse_labels(b: Seq<u8>, pos: int, bound: int) -> Result<
    (Labels, int),
    ParseError,
>
    decreases bound, b.len() - pos,
{
    if pos < 0 || pos >= b.len() {
        Err(ParseError::UnexpectedEnd)
    } else {
        let lb = b[pos];
        if lb == 0 {
            Ok((Seq::empty(), pos + 1))
        } else if lb >= 192 {
            if pos + 1 >= b.len() {
                Err(ParseError::UnexpectedEnd)
            } else {
                let target = (lb - 192) * 256 + b[pos + 1];
                if target >= bound {
                    Err(ParseError::ForwardPointer)
                } else {
                    match spec_parse_labels(b, target, target) {
                        Ok((ls, _)) => Ok((ls, pos + 2)),
                        Err(e) => Err(e),
                    }
                }
            }
        } else if lb > 63 {
            Err(ParseError::LabelTooLong)
        } else if pos + 1 + lb > b.len() {
            Err(ParseError::UnexpectedEnd)
        } else {
            match spec_parse_labels(b, pos + 1 + lb, bound) {
                Ok((rest, end)) => Ok(
                    (seq![b.subrange(pos + 1, pos + 1 + lb)] + rest, end),
                ),
                Err(e) => Err(e),
            }
        }
    }
}

/// A successful decode at `pos` (with the bound at `pos`) yields
/// exactly the labels `k`.
pub open spec fn parses_back(b: Seq<u8>, pos: int, k: Labels) -> bool {
    match spec_parse_labels(b, pos, pos) {
        Ok((ls, _)) => ls == k,
        Err(_) => false,
    }
}

/// The literal encoding of the labels, without a terminator.
pub open spec fn cat_literals(ls: Labels) -> Seq<u8>
    decreases ls.len(),
{
    if ls.len() == 0 {
        Seq::empty()
    } else {
        seq![ls[0].len() as u8] + ls[0] + cat_literals(ls.drop_first())
    }
}

/// The uncompressed encoding of a whole name.
pub open spec fn plain_wire(ls: Labels) -> Seq<u8> {
    cat_literals(ls) + seq![0u8]
}

/// The two bytes of a compression pointer to `off`.
pub open spec fn ptr_bytes(off: int) -> Seq<u8> {
    seq![(192 + off / 256) as u8, (off % 256) as u8]
}

/// Encodes a name against the suffix map `m`, writing at offset `base`
/// of the output. For each suffix, from the whole name down: if the
/// map already holds it, emit a pointer and stop; otherwise record the
/// suffix at the current offset (when it fits the 14-bit pointer
/// range) and emit the leading label literally. A name that was never
/// cut short by a pointer is closed with a zero byte.
pub open spec fn spec_ser_labels(ls: Labels, m: Map<Labels, int>, base: int) -> (Seq<u8>, Map<
    Labels,
    int,
>)
    decreases ls.len(),
{
    if ls.len() == 0 {
        (seq![0u8], m)
    } else if m.dom().contains(ls) {
        (ptr_bytes(m[ls]), m)
    } else {
        let m1 = if base < 16384 {
            m.insert(ls, base)
        } else {
            m
        };
        let head = ls[0];
        let (tail_bytes, m2) = spec_ser_labels(ls.drop_first(), m1, base + 1 + head.len());
        (seq![head.len() as u8] + head + tail_bytes, m2)
    }
}

/// Every entry of the suffix map denotes an offset, below the cursor's
/// pointer range, at which its key decodes back.
pub open spec fn ctx_ok(b: Seq<u8>, m: Map<Labels, int>) -> bool {
    forall|k: Labels| m.dom().contains(k) ==> 0 <= #[trigger] m[k] < 16384 && parses_back(b, m[k], k)
}

/// The labels joined by dots, as written in a domain name string.
pub open spec fn spec_join_dots(ls: Labels) -> Seq<u8>
    decreases ls.len(),
{
    if ls.len() == 0 {
        Seq::empty()
    } else if ls.len() == 1 {
        ls[0]
    } else {
        ls[0] + seq![46u8] + spec_join_dots(ls.drop_first())
    }
}

/// Joining after appending one more label appends a dot and the label.
pub proof fn lemma_join_dots_snoc(ls: Labels, x: Seq<u8>)
    requires
        ls.len() > 0,
    ensures
        spec_join_dots(ls.push(x)) == spec_join_dots(ls) + seq![46u8] + x,
    decreases ls.len(),
{
    if ls.len() == 1 {
        assert(ls.push(x)[0] == ls[0]);
        assert(ls.push(x).drop_first() =~= seq![x]);
        assert(spec_join_dots(seq![x]) == x);
        assert(spec_join_dots(ls.push(x)) =~= ls[0] + seq![46u8] + x);
        assert(spec_join_dots(ls) == ls[0]);
    } else {
        assert(ls.push(x).drop_first() =~= ls.drop_first().push(x));
        lemma_join_dots_snoc(ls.drop_first(), x);
        assert(spec_join_dots(ls.push(x)) == ls[0] + seq![46u8] + (spec_join_dots(ls.drop_first())
            + seq![46u8] + x));
        assert(ls[0] + seq![46u8] + (spec_join_dots(ls.drop_first()) + seq![46u8] + x) =~= (ls[0]
            + seq![46u8] + spec_join_dots(ls.drop_first())) + seq![46u8] + x);
    }
}

/// A successful decode starts inside the buffer, consumes at least
/// one byte at the outermost level, stays within the buffer, and
/// yields only well-formed labels.
pub proof fn lemma_parse_ok_bounds(b: Seq<u8>, pos: int, bound: int)
    requires
        spec_parse_labels(b, pos, bound) is Ok,
    ensures
        ({
            let (ls, end) = spec_parse_labels(b, pos, bound)->Ok_0;
            0 <= pos < end <= b.len() && wf_labels(ls)
        }),
    decreases bound, b.len() - pos,
{
    let lb = b[pos];
    if lb == 0 {
    } else if lb >= 192 {
        let target = (lb - 192) * 256 + b[pos + 1];
        lemma_parse_ok_bounds(b, target, target);
        let (ls, _) = spec_parse_labels(b, target, target)->Ok_0;
        assert(spec_parse_labels(b, pos, bound)->Ok_0.0 == ls);
    } else {
        lemma_parse_ok_bounds(b, pos + 1 + lb, bound);
        let (rest, end) = spec_parse_labels(b, pos + 1 + lb, bound)->Ok_0;
        let ls = seq![b.subrange(pos + 1, pos + 1 + lb)] + rest;
        assert forall|i: int| 0 <= i < ls.len() implies wf_label(#[trigger] ls[i]) by {
            if i > 0 {
                assert(ls[i] == rest[i - 1]);
            }
        }
    }
}

/// A successful decode is unaffected by bytes appended after the
/// buffer: it never reads past what it consumed.
pub proof fn lemma_parse_extend(b: Seq<u8>, ext: Seq<u8>, pos: int, bound: int)
    requires
        spec_parse_labels(b, pos, bound) is Ok,
    ensures
        spec_parse_labels(b + ext, pos, bound) == spec_parse_labels(b, pos, bound),
    decreases bound, b.len() - pos,
{
    let t = b + ext;
    lemma_parse_ok_bounds(b, pos, bound);
    assert(t[pos] == b[pos]);
    let lb = b[pos];
    if lb == 0 {
    } else if lb >= 192 {
        assert(t[pos + 1] == b[pos + 1]);
        let target = (lb - 192) * 256 + b[pos + 1];
        lemma_parse_extend(b, ext, target, target);
    } else {
        lemma_parse_extend(b, ext, pos + 1 + lb, bound);
        assert(t.subrange(pos + 1, pos + 1 + lb) =~= b.subrange(pos + 1, pos + 1 + lb));
    }
}

/// Entries that decode back keep doing so after the buffer grows.
pub proof fn lemma_ctx_ok_extend(b: Seq<u8>, ext: Seq<u8>, m: Map<Labels, int>)
    requires
        ctx_ok(b, m),
    ensures
        ctx_ok(b + ext, m),
{
    assert forall|k: Labels| m.dom().contains(k) implies 0 <= #[trigger] m[k] < 16384
        && parses_back(b + ext, m[k], k) by {
        lemma_parse_extend(b, ext, m[k], m[k]);
    }
}

/// Literal labels followed by a decodable tail decode as their
/// concatenation: reading the literals lands exactly where the tail
/// starts, with the same pointer bound.
pub proof fn lemma_parse_literals_then(b: Seq<u8>, pre: Labels, pos: int, bound: int)
    requires
        wf_labels(pre),
        0 <= pos,
        pos + cat_literals(pre).len() <= b.len(),
        b.subrange(pos, pos + cat_literals(pre).len() as int) == cat_literals(pre),
        spec_parse_labels(b, pos + cat_literals(pre).len() as int, bound) is Ok,
    ensures
        ({
            let (ls, end) = spec_parse_labels(
                b,
                pos + cat_literals(pre).len() as int,
                bound,
            )->Ok_0;
            spec_parse_labels(b, pos, bound) == Ok::<(Labels, int), ParseError>((pre + ls, end))
        }),
    decreases pre.len(),
{
    let cl = cat_literals(pre);
    let (ls, end) = spec_parse_labels(b, pos + cl.len(), bound)->Ok_0;
    if pre.len() == 0 {
        assert(cl =~= Seq::<u8>::empty());
        assert(pre + ls =~= ls);
    } else {
        let head = pre[0];
        let head_enc = seq![head.len() as u8] + head;
        let rest_cl = cat_literals(pre.drop_first());
        assert(cl =~= head_enc + rest_cl);
        assert forall|k: int| 0 <= k < cl.len() implies b[pos + k] == cl[k] by {
            assert(b.subrange(pos, pos + cl.len() as int)[k] == b[pos + k]);
        }
        assert(head_enc[0] == head.len() as u8);
        assert(cl[0] == head_enc[0]);
        assert(b[pos] == head.len() as u8);
        assert(1 <= head.len() <= 63);
        assert(b[pos] != 0 && b[pos] < 192 && b[pos] <= 63);
        assert(b.subrange(pos + 1, pos + 1 + head.len()) =~= head) by {
            assert forall|j: int| 0 <= j < head.len() implies b[pos + 1 + j] == head[j] by {
                assert(head_enc[1 + j] == head[j]);
                assert(cl[1 + j] == head_enc[1 + j]);
                assert(b[pos + (1 + j)] == cl[1 + j]);
            }
        }
        let pos2 = pos + 1 + head.len();
        assert(b.subrange(pos2, pos2 + rest_cl.len() as int) =~= rest_cl) by {
            assert forall|k: int| 0 <= k < rest_cl.len() implies b[pos2 + k] == rest_cl[k] by {
                assert(cl[head_enc.len() + k] == rest_cl[k]);
                assert(b[pos + (head_enc.len() + k)] == cl[head_enc.len() + k]);
            }
        }
        lemma_parse_literals_then(b, pre.drop_first(), pos2, bound);
        assert(spec_parse_labels(b, pos, bound) == Ok::<(Labels, int), ParseError>(
            (seq![b.subrange(pos + 1, pos + 1 + head.len())] + (pre.drop_first() + ls), end),
        ));
        assert(seq![head] + (pre.drop_first() + ls) =~= pre + ls);
    }
}

/// Keys the serializer adds to the map are suffixes of the name.
pub proof fn lemma_ser_domain(ls: Labels, m: Map<Labels, int>, base: int)
    ensures
        forall|k: Labels|
            #[trigger] spec_ser_labels(ls, m, base).1.dom().contains(k) ==> m.dom().contains(k)
                || exists|i: int| 0 <= i < ls.len() && k == ls.skip(i),
        forall|k: Labels|
            #[trigger] m.dom().contains(k) ==> spec_ser_labels(ls, m, base).1.dom().contains(k)
                && spec_ser_labels(ls, m, base).1[k] == m[k],
    decreases ls.len(),
{
    if ls.len() == 0 {
        assert forall|k: Labels| #[trigger] m.dom().contains(k) implies spec_ser_labels(
            ls,
            m,
            base,
        ).1.dom().contains(k) && spec_ser_labels(ls, m, base).1[k] == m[k] by {
            assert(spec_ser_labels(ls, m, base).1 == m);
        }
    } else if m.dom().contains(ls) {
        assert forall|k: Labels| #[trigger] m.dom().contains(k) implies spec_ser_labels(
            ls,
            m,
            base,
        ).1.dom().contains(k) && spec_ser_labels(ls, m, base).1[k] == m[k] by {
            assert(spec_ser_labels(ls, m, base).1 == m);
        }
    } else {
        let m1 = if base < 16384 {
            m.insert(ls, base)
        } else {
            m
        };
        lemma_ser_domain(ls.drop_first(), m1, base + 1 + ls[0].len());
        let (bytes, m2) = spec_ser_labels(ls, m, base);
        assert(ls.skip(0) =~= ls);
        assert forall|k: Labels| m2.dom().contains(k) implies m.dom().contains(k) || exists|i: int|
            0 <= i < ls.len() && k == ls.skip(i) by {
            if !m.dom().contains(k) {
                if m1.dom().contains(k) {
                    assert(k == ls.skip(0));
                } else {
                    assert(spec_ser_labels(ls.drop_first(), m1, base + 1 + ls[0].len() as int
                    ).1.dom().contains(k));
                    assert(exists|i: int|
                        0 <= i < ls.drop_first().len() && k == ls.drop_first().skip(i));
                    let i = choose|i: int|
                        0 <= i < ls.drop_first().len() && k == ls.drop_first().skip(i);
                    assert(ls.drop_first().skip(i) =~= ls.skip(i + 1));
                    assert(k == ls.skip(i + 1));
                }
            }
        }
        assert(spec_ser_labels(ls, m, base).1 == m2);
        assert forall|k: Labels| #[trigger] m.dom().contains(k) implies spec_ser_labels(
            ls,
            m,
            base,
        ).1.dom().contains(k) && spec_ser_labels(ls, m, base).1[k] == m[k] by {
            assert(m1.dom().contains(k) && m1[k] == m[k]);
            assert(spec_ser_labels(ls.drop_first(), m1, base + 1 + ls[0].len()).1.dom().contains(
                k,
            ));
            assert(spec_ser_labels(ls.drop_first(), m1, base + 1 + ls[0].len()).1[k] == m[k]);
            assert(spec_ser_labels(ls, m, base).1 == spec_ser_labels(
                ls.drop_first(),
                m1,
                base + 1 + ls[0].len(),
            ).1);
        }
    }
}

/// The encoding of a name is never longer than its uncompressed form,
/// and strictly shorter as soon as any suffix of the name is already
/// in the map.
pub proof fn lemma_ser_len(ls: Labels, m: Map<Labels, int>, base: int)
    requires
        wf_labels(ls),
    ensures
        spec_ser_labels(ls, m, base).0.len() <= plain_wire(ls).len(),
        (exists|i: int| 0 <= i < ls.len() && m.dom().contains(#[trigger] ls.skip(i)))
            ==> spec_ser_labels(ls, m, base).0.len() < plain_wire(ls).len(),
    decreases ls.len(),
{
    if ls.len() == 0 {
    } else if m.dom().contains(ls) {
        lemma_plain_len_lower(ls);
    } else {
        let m1 = if base < 16384 {
            m.insert(ls, base)
        } else {
            m
        };
        assert(forall|i: int|
            0 <= i < ls.drop_first().len() ==> wf_label(#[trigger] ls.drop_first()[i]));
        lemma_ser_len(ls.drop_first(), m1, base + 1 + ls[0].len());
        assert(plain_wire(ls).len() == 1 + ls[0].len() + plain_wire(ls.drop_first()).len());
        if exists|i: int| 0 <= i < ls.len() && m.dom().contains(#[trigger] ls.skip(i)) {
            let i = choose|i: int| 0 <= i < ls.len() && m.dom().contains(#[trigger] ls.skip(i));
            assert(ls.skip(0) =~= ls);
            assert(i != 0);
            assert(ls.drop_first().skip(i - 1) =~= ls.skip(i));
            assert(m1.dom().contains(ls.drop_first().skip(i - 1)));
        }
    }
}

/// The uncompressed form of a nonempty name takes at least three
/// bytes: a length byte, one label byte, and the terminator.
pub proof fn lemma_plain_len_lower(ls: Labels)
    requires
        wf_labels(ls),
        ls.len() > 0,
    ensures
        plain_wire(ls).len() >= 3,
        plain_wire(ls).len() > 2,
{
    assert(cat_literals(ls).len() >= 1 + ls[0].len());
}

/// When no suffix of the name is in the map, the encoding is exactly
/// the uncompressed form.
pub proof fn lemma_ser_plain(ls: Labels, m: Map<Labels, int>, base: int)
    requires
        forall|i: int| 0 <= i < ls.len() ==> !m.dom().contains(#[trigger] ls.skip(i)),
    ensures
        spec_ser_labels(ls, m, base).0 == plain_wire(ls),
    decreases ls.len(),
{
    if ls.len() == 0 {
        assert(plain_wire(ls) =~= seq![0u8]);
    } else {
        assert(ls.skip(0) =~= ls);
        assert(!m.dom().contains(ls));
        let m1 = if base < 16384 {
            m.insert(ls, base)
        } else {
            m
        };
        assert forall|i: int|
            0 <= i < ls.drop_first().len() implies !m1.dom().contains(
            #[trigger] ls.drop_first().skip(i)) by {
            assert(ls.drop_first().skip(i) =~= ls.skip(i + 1));
        }
        lemma_ser_plain(ls.drop_first(), m1, base + 1 + ls[0].len());
        assert(seq![ls[0].len() as u8] + ls[0] + plain_wire(ls.drop_first()) =~= plain_wire(ls));
    }
}

/// When no suffix of the name is in the map yet and the whole
/// encoding fits below the pointer range, every suffix of the name
/// gets recorded.
pub proof fn lemma_ser_all_suffixes(ls: Labels, m: Map<Labels, int>, base: int)
    requires
        forall|i: int| 0 <= i < ls.len() ==> !m.dom().contains(#[trigger] ls.skip(i)),
        0 <= base,
        base + cat_literals(ls).len() < 16384,
    ensures
        forall|i: int|
            0 <= i < ls.len() ==> spec_ser_labels(ls, m, base).1.dom().contains(
                #[trigger] ls.skip(i),
            ),
    decreases ls.len(),
{
    if ls.len() > 0 {
        assert(ls.skip(0) =~= ls);
        assert(!m.dom().contains(ls));
        let m1 = m.insert(ls, base);
        assert forall|i: int|
            0 <= i < ls.drop_first().len() implies !m1.dom().contains(
            #[trigger] ls.drop_first().skip(i)) by {
            assert(ls.drop_first().skip(i) =~= ls.skip(i + 1));
        }
        assert(cat_literals(ls).len() == 1 + ls[0].len() + cat_literals(ls.drop_first()).len());
        lemma_ser_all_suffixes(ls.drop_first(), m1, base + 1 + ls[0].len());
        let m2 = spec_ser_labels(ls, m, base).1;
        assert(m2 == spec_ser_labels(ls.drop_first(), m1, base + 1 + ls[0].len()).1);
        lemma_ser_domain(ls.drop_first(), m1, base + 1 + ls[0].len());
        assert forall|i: int| 0 <= i < ls.len() implies m2.dom().contains(
            #[trigger] ls.skip(i)) by {
            if i == 0 {
                assert(m1.dom().contains(ls));
            } else {
                assert(ls.drop_first().skip(i - 1) =~= ls.skip(i));
                assert(spec_ser_labels(ls.drop_first(), m1, base + 1
                    + ls[0].len()).1.dom().contains(ls.drop_first().skip(i - 1)));
            }
        }
    }
}

/// The pending-entry shape used while one name is being written: the
/// bytes from the entry's offset to the end of the buffer are the
/// literal encoding of some well-formed prefix, and the entry's key is
/// that prefix followed by the labels still to be written.
pub open spec fn pending_ok(b: Seq<u8>, m: Map<Labels, int>, ls: Labels, b0: int) -> bool {
    forall|k: Labels|
        m.dom().contains(k) && m[k] >= b0 ==> #[trigger] m[k] < 16384 && m[k] <= b.len()
            && exists|pre: Labels|
            wf_labels(pre) && k == pre + ls && b.subrange(m[k], b.len() as int) == cat_literals(
                pre,
            )
}

/// The central correctness fact for name encoding. If every resolved
/// map entry (offset below `b0`) decodes back to its key, every entry
/// keyed by a suffix of the name is resolved, and every pending entry
/// (offset at or above `b0`) has the pending shape, then the bytes the
/// serializer emits decode back to exactly the name, under any pointer
/// bound at or above `b0` — and afterwards every entry of the updated
/// map, pending ones included, decodes back to its key.
pub proof fn lemma_ser_correct(b: Seq<u8>, m: Map<Labels, int>, ls: Labels, b0: int)
    requires
        wf_labels(ls),
        0 <= b0 <= b.len(),
        forall|k: Labels|
            m.dom().contains(k) && m[k] < b0 ==> 0 <= #[trigger] m[k] < 16384 && parses_back(
                b,
                m[k],
                k,
            ),
        forall|i: int|
            0 <= i < ls.len() && m.dom().contains(#[trigger] ls.skip(i)) ==> m[ls.skip(i)] < b0,
        pending_ok(b, m, ls, b0),
    ensures
        ({
            let (bytes, m2) = spec_ser_labels(ls, m, b.len() as int);
            &&& forall|bd: int|
                bd >= b0 ==> spec_parse_labels(b + bytes, b.len() as int, bd) == Ok::<
                    (Labels, int),
                    ParseError,
                >((ls, b.len() + bytes.len() as int))
            &&& forall|k: Labels|
                #[trigger] m.dom().contains(k) ==> m2.dom().contains(k) && m2[k] == m[k]
            &&& forall|k: Labels|
                #[trigger] m2.dom().contains(k) && !m.dom().contains(k) ==> b0 <= m2[k] < 16384
            &&& forall|k: Labels|
                #[trigger] m2.dom().contains(k) && m2[k] >= b0 ==> parses_back(b + bytes, m2[k], k)
            &&& forall|k: Labels|
                #[trigger] m2.dom().contains(k) && m2[k] < b0 ==> parses_back(b + bytes, m2[k], k)
        }),
    decreases ls.len(),
{
    let (bytes, m2) = spec_ser_labels(ls, m, b.len() as int);
    if ls.len() == 0 {
        assert(bytes == seq![0u8]);
        let t = b + bytes;
        assert(t[b.len() as int] == 0);
        assert forall|bd: int| bd >= b0 implies spec_parse_labels(t, b.len() as int, bd) == Ok::<
            (Labels, int),
            ParseError,
        >((ls, b.len() + bytes.len() as int)) by {
            assert(ls =~= Seq::<Seq<u8>>::empty());
        }
        assert forall|k: Labels| m2.dom().contains(k) && m2[k] >= b0 implies parses_back(
            t,
            m2[k],
            k,
        ) by {
            let pre = choose|pre: Labels|
                wf_labels(pre) && k == pre + ls && b.subrange(m[k], b.len() as int)
                    == cat_literals(pre);
            assert(t.subrange(m[k], m[k] + cat_literals(pre).len() as int) =~= b.subrange(
                m[k],
                b.len() as int,
            ));
            lemma_parse_literals_then(t, pre, m[k], m[k]);
            assert(pre + ls =~= pre);
        }
        assert forall|k: Labels| m2.dom().contains(k) && m2[k] < b0 implies parses_back(
            t,
            m2[k],
            k,
        ) by {
            lemma_parse_extend(b, bytes, m[k], m[k]);
        }
    } else if m.dom().contains(ls) {
        assert(ls.skip(0) =~= ls);
        let off = m[ls];
        assert(off < b0);
        assert(parses_back(b, off, ls));
        lemma_parse_ok_bounds(b, off, off);
        assert(0 <= off < b.len());
        assert(bytes == ptr_bytes(off));
        let t = b + bytes;
        let hi = (192 + off / 256) as u8;
        let lo = (off % 256) as u8;
        assert(bytes =~= seq![hi, lo]);
        assert(t[b.len() as int] == hi && t[b.len() as int + 1] == lo);
        vstd::arithmetic::div_mod::lemma_fundamental_div_mod(off, 256);
        vstd::arithmetic::div_mod::lemma_mod_bound(off, 256);
        vstd::arithmetic::div_mod::lemma_div_pos_is_pos(off, 256);
        assert(0 <= off % 256 < 256);
        assert(0 <= off / 256 < 64);
        assert(hi >= 192);
        assert((hi - 192) * 256 + lo == off);
        lemma_parse_extend(b, bytes, off, off);
        assert forall|bd: int| bd >= b0 implies spec_parse_labels(t, b.len() as int, bd) == Ok::<
            (Labels, int),
            ParseError,
        >((ls, b.len() + bytes.len() as int)) by {
            assert(off < bd);
            assert(spec_parse_labels(t, off, off) is Ok);
            let (jls, _) = spec_parse_labels(t, off, off)->Ok_0;
            assert(jls == ls);
        }
        assert forall|k: Labels| m2.dom().contains(k) && m2[k] >= b0 implies parses_back(
            t,
            m2[k],
            k,
        ) by {
            let pre = choose|pre: Labels|
                wf_labels(pre) && k == pre + ls && b.subrange(m[k], b.len() as int)
                    == cat_literals(pre);
            assert(t.subrange(m[k], m[k] + cat_literals(pre).len() as int) =~= b.subrange(
                m[k],
                b.len() as int,
            ));
            assert(spec_parse_labels(t, b.len() as int, m[k]) == Ok::<(Labels, int), ParseError>(
                (ls, b.len() + bytes.len() as int),
            ));
            lemma_parse_literals_then(t, pre, m[k], m[k]);
        }
        assert forall|k: Labels| m2.dom().contains(k) && m2[k] < b0 implies parses_back(
            t,
            m2[k],
            k,
        ) by {
            lemma_parse_extend(b, bytes, m[k], m[k]);
        }
    } else {
        let head = ls[0];
        let head_enc = seq![head.len() as u8] + head;
        let b1 = b + head_enc;
        let m1 = if b.len() < 16384 {
            m.insert(ls, b.len() as int)
        } else {
            m
        };
        let tail = ls.drop_first();
        let (tail_bytes, m2x) = spec_ser_labels(tail, m1, b.len() + head_enc.len() as int);
        assert(b.len() + head_enc.len() as int == b1.len() as int);
        assert(bytes == head_enc + tail_bytes);
        assert(m2 == m2x);
        // check the inductive hypotheses for (b1, m1, tail, b0)
        assert(forall|i: int| 0 <= i < tail.len() ==> wf_label(#[trigger] tail[i]));
        assert forall|k: Labels|
            m1.dom().contains(k) && m1[k] < b0 implies 0 <= #[trigger] m1[k] && parses_back(
            b1,
            m1[k],
            k,
        ) by {
            assert(k != ls || m1[k] == b.len());
            assert(m.dom().contains(k) && m[k] == m1[k]);
            lemma_parse_extend(b, head_enc, m[k], m[k]);
        }
        assert forall|i: int|
            0 <= i < tail.len() && m1.dom().contains(#[trigger] tail.skip(i)) implies m1[tail.skip(
            i,
        )] < b0 by {
            assert(tail.skip(i) =~= ls.skip(i + 1));
            assert(tail.skip(i).len() < ls.len());
            assert(tail.skip(i) != ls);
            assert(m.dom().contains(ls.skip(i + 1)));
        }
        assert(pending_ok(b1, m1, tail, b0)) by {
            assert forall|k: Labels|
                m1.dom().contains(k) && m1[k] >= b0 implies #[trigger] m1[k] < 16384 && m1[k]
                <= b1.len() && exists|pre: Labels|
                wf_labels(pre) && k == pre + tail && b1.subrange(m1[k], b1.len() as int)
                    == cat_literals(pre) by {
                if k == ls && !m.dom().contains(k) {
                    assert(m1[k] == b.len());
                    let pre = seq![head];
                    assert(pre.drop_first() =~= Seq::<Seq<u8>>::empty());
                    assert(cat_literals(Seq::<Seq<u8>>::empty()) =~= Seq::<u8>::empty());
                    assert(cat_literals(pre.drop_first()) == Seq::<u8>::empty());
                    assert(cat_literals(pre) =~= head_enc);
                    assert(b1.subrange(b.len() as int, b1.len() as int) =~= head_enc);
                    assert(pre + tail =~= ls);
                    assert(wf_labels(pre));
                } else {
                    assert(m.dom().contains(k) && m[k] == m1[k]);
                    let pre = choose|pre: Labels|
                        wf_labels(pre) && k == pre + ls && b.subrange(m[k], b.len() as int)
                            == cat_literals(pre);
                    let pre2 = pre.push(head);
                    assert(pre2.drop_last() =~= pre);
                    lemma_cat_literals_snoc(pre, head);
                    assert(b1.subrange(m[k], b1.len() as int) =~= cat_literals(pre) + head_enc);
                    assert(pre2 + tail =~= pre + ls);
                    assert(wf_labels(pre2)) by {
                        assert forall|j: int| 0 <= j < pre2.len() implies wf_label(
                            #[trigger] pre2[j]) by {
                            if j < pre.len() {
                                assert(pre2[j] == pre[j]);
                            } else {
                                assert(pre2[j] == head);
                            }
                        }
                    }
                }
            }
        }
        lemma_ser_correct(b1, m1, tail, b0);
        let t = b + bytes;
        assert(t =~= b1 + tail_bytes);
        assert forall|bd: int| bd >= b0 implies spec_parse_labels(t, b.len() as int, bd) == Ok::<
            (Labels, int),
            ParseError,
        >((ls, b.len() + bytes.len() as int)) by {
            assert(spec_parse_labels(b1 + tail_bytes, b1.len() as int, bd) == Ok::<
                (Labels, int),
                ParseError,
            >((tail, b1.len() + tail_bytes.len() as int)));
            assert(t[b.len() as int] == head.len() as u8);
            assert(1 <= head.len() <= 63);
            assert(t.subrange(b.len() as int + 1, b.len() + 1 + head.len() as int) =~= head);
            assert(spec_parse_labels(t, b.len() as int, bd) == Ok::<(Labels, int), ParseError>(
                (seq![t.subrange(b.len() as int + 1, b.len() + 1 + head.len() as int)] + tail, b1.len()
                    + tail_bytes.len() as int),
            ));
            assert(seq![head] + tail =~= ls);
            assert(b1.len() + tail_bytes.len() == b.len() + bytes.len());
        }
        assert forall|k: Labels| #[trigger] m.dom().contains(k) implies m2.dom().contains(k)
            && m2[k] == m[k] by {
            assert(m1.dom().contains(k) && m1[k] == m[k]);
        }
        assert forall|k: Labels|
            #[trigger] m2.dom().contains(k) && !m.dom().contains(k) implies b0 <= m2[k]
            < 16384 by {
            if m1.dom().contains(k) {
                assert(k == ls);
                assert(m1[k] == b.len());
                assert(m2[k] == m1[k]);
            } else {
                assert(m2x.dom().contains(k));
            }
        }
        assert forall|k: Labels| m2.dom().contains(k) implies parses_back(t, m2[k], k) by {
            assert(m2x.dom().contains(k));
            if m2[k] >= b0 {
                assert(parses_back(b1 + tail_bytes, m2[k], k));
            } else {
                assert(parses_back(b1 + tail_bytes, m2[k], k));
            }
            assert(t == b1 + tail_bytes);
        }
    }
}

/// A name serialized at the end of a buffer whose suffix map is sound
/// decodes back to exactly that name — whether it was emitted
/// literally, cut short by a pointer, or any mix — and the updated
/// map is sound for the grown buffer.
pub proof fn lemma_ser_name_parses(b: Seq<u8>, m: Map<Labels, int>, ls: Labels)
    requires
        ctx_ok(b, m),
        wf_labels(ls),
    ensures
        ({
            let (bytes, m2) = spec_ser_labels(ls, m, b.len() as int);
            &&& forall|bd: int|
                bd >= b.len() ==> spec_parse_labels(b + bytes, b.len() as int, bd) == Ok::<
                    (Labels, int),
                    ParseError,
                >((ls, b.len() + bytes.len() as int))
            &&& ctx_ok(b + bytes, m2)
            &&& forall|k: Labels|
                #[trigger] m.dom().contains(k) ==> m2.dom().contains(k) && m2[k] == m[k]
        }),
{
    assert forall|k: Labels| m.dom().contains(k) implies #[trigger] m[k] < b.len() by {
        lemma_parse_ok_bounds(b, m[k], m[k]);
    }
    lemma_ser_correct(b, m, ls, b.len() as int);
    let (bytes, m2) = spec_ser_labels(ls, m, b.len() as int);
    assert forall|k: Labels| m2.dom().contains(k) implies 0 <= #[trigger] m2[k] < 16384
        && parses_back(b + bytes, m2[k], k) by {
        if m.dom().contains(k) {
            assert(m2[k] == m[k]);
        }
    }
}

/// A compression pointer that targets an offset at or past the
/// position where the name began is rejected outright: the decoder
/// can neither loop on it nor read through it.
pub proof fn lemma_forward_pointer_rejected(b: Seq<u8>, pos: int)
    requires
        0 <= pos,
        pos + 1 < b.len(),
        b[pos] >= 192,
        (b[pos] - 192) * 256 + b[pos + 1] >= pos,
    ensures
        spec_parse_labels(b, pos, pos) == Err::<(Labels, int), ParseError>(
            ParseError::ForwardPointer,
        ),
{
}

/// How the decoder classifies a length byte: zero terminates the
/// name; 1 to 63 announce a literal label of exactly that many bytes;
/// 64 to 191 are invalid; 192 and above open a two-byte compression
/// pointer, after which nothing more is read at this position.
pub proof fn lemma_length_byte_classification(b: Seq<u8>, pos: int, bound: int)
    requires
        0 <= pos < b.len(),
    ensures
        b[pos] == 0 ==> spec_parse_labels(b, pos, bound) == Ok::<(Labels, int), ParseError>(
            (Seq::empty(), pos + 1),
        ),
        64 <= b[pos] <= 191 ==> spec_parse_labels(b, pos, bound) == Err::<
            (Labels, int),
            ParseError,
        >(ParseError::LabelTooLong),
        1 <= b[pos] <= 63 && spec_parse_labels(b, pos, bound) is Ok ==> ({
            let (ls, _) = spec_parse_labels(b, pos, bound)->Ok_0;
            ls.len() > 0 && ls[0] == b.subrange(pos + 1, pos + 1 + b[pos])
        }),
        b[pos] >= 192 && spec_parse_labels(b, pos, bound) is Ok ==> ({
            let (_, end) = spec_parse_labels(b, pos, bound)->Ok_0;
            end == pos + 2
        }),
{
}

/// Appending a label to a prefix appends its literal encoding.
pub proof fn lemma_cat_literals_snoc(pre: Labels, x: Seq<u8>)
    ensures
        cat_literals(pre.push(x)) == cat_literals(pre) + (seq![x.len() as u8] + x),
    decreases pre.len(),
{
    if pre.len() == 0 {
        assert(pre.push(x)[0] == x);
        assert(pre.push(x).drop_first() =~= Seq::<Seq<u8>>::empty());
        assert(cat_literals(Seq::<Seq<u8>>::empty()) =~= Seq::<u8>::empty());
        assert(cat_literals(pre.push(x).drop_first()) == Seq::<u8>::empty());
        assert(cat_literals(pre.push(x)) =~= seq![x.len() as u8] + x);
        assert(cat_literals(pre) + (seq![x.len() as u8] + x) =~= seq![x.len() as u8] + x);
    } else {
        assert(pre.push(x).drop_first() =~= pre.drop_first().push(x));
        lemma_cat_literals_snoc(pre.drop_first(), x);
        assert(pre.push(x)[0] == pre[0]);
        assert(seq![pre[0].len() as u8] + pre[0] + (cat_literals(pre.drop_first()) + (seq![
            x.len() as u8,
        ] + x)) =~= (seq![pre[0].len() as u8] + pre[0] + cat_literals(pre.drop_first())) + (seq![
            x.len() as u8,
        ] + x));
    }
}

/// A `Vec<u8>`'s deep view is its view.
pub proof fn lemma_vec_u8_deep_view(v: Vec<u8>)
    ensures
        v.deep_view() == v@,
{
    assert(v.deep_view() =~= v@);
}

/// Pushing a label pushes its view onto the deep view.
pub proof fn lemma_deep_view_push(v: Vec<Vec<u8>>, x: Vec<u8>, v2: Vec<Vec<u8>>)
    requires
        v2@ == v@.push(x),
    ensures
        v2.deep_view() == v.deep_view().push(x.deep_view()),
{
    assert forall|k: int| 0 <= k < v2@.len() implies v2.deep_view()[k] == v.deep_view().push(
        x.deep_view(),
    )[k] by {
        assert(v2.deep_view()[k] == v2@[k].deep_view());
        if k < v@.len() {
            assert(v2@[k] == v@[k]);
        } else {
            assert(v2@[k] == x);
        }
    }
    assert(v2.deep_view() =~= v.deep_view().push(x.deep_view()));
}

/// A label list laid out as head-then-tail has the matching deep view.
pub proof fn lemma_deep_view_cons(v: Vec<Vec<u8>>, head: Vec<u8>, tail: Vec<Vec<u8>>)
    requires
        v@ == seq![head] + tail@,
    ensures
        v.deep_view() == seq![head.deep_view()] + tail.deep_view(),
{
    assert(v.deep_view() =~= seq![head.deep_view()] + tail.deep_view());
}

/// Decodes a name starting at absolute position `pos`, with every
/// pointer required to stay strictly below `bound`. Mirrors
/// `spec_parse_labels` exactly, including which error is reported.
pub(crate) fn parse_labels_at(b: &Vec<u8>, pos: usize, bound: usize) -> (r: Result<
    (Vec<Vec<u8>>, usize),
    ParseError,
>)
    ensures
        ({
            let s = spec_parse_labels(b@, pos as int, bound as int);
            match r {
                Ok(p) => s == Ok::<(Labels, int), ParseError>((p.0.deep_view(), p.1 as int))
                    && pos < p.1 <= b@.len(),
                Err(e) => s == Err::<(Labels, int), ParseError>(e),
            }
        }),
    decreases bound as int, b@.len() - pos,
{
    let n = b.len();
    if pos >= n {
        return Err(ParseError::UnexpectedEnd);
    }
    let lb = b[pos];
    if lb == 0 {
        let out: Vec<Vec<u8>> = Vec::new();
        proof {
            assert(out.deep_view() =~= Seq::<Seq<u8>>::empty());
        }
        return Ok((out, pos + 1));
    }
    if lb >= 192 {
        if pos + 1 >= n {
            return Err(ParseError::UnexpectedEnd);
        }
        let target = (lb as usize - 192) * 256 + b[pos + 1] as usize;
        if target >= bound {
            return Err(ParseError::ForwardPointer);
        }
        match parse_labels_at(b, target, target) {
            Ok((ls, _end)) => Ok((ls, pos + 2)),
            Err(e) => Err(e),
        }
    } else if lb > 63 {
        Err(ParseError::LabelTooLong)
    } else {
        let lbu = lb as usize;
        if n - pos - 1 < lbu {
            return Err(ParseError::UnexpectedEnd);
        }
        let mut label: Vec<u8> = Vec::new();
        let mut j: usize = 0;
        while j < lbu
            invariant
                j <= lbu,
                n == b@.len(),
                pos + 1 + lbu <= n,
                label@ == b@.subrange(pos + 1, pos + 1 + j),
            decreases lbu - j,
        {
            label.push(b[pos + 1 + j]);
            proof {
                assert(label@ =~= b@.subrange(pos + 1, pos + 1 + j + 1));
            }
            j = j + 1;
        }
        match parse_labels_at(b, pos + 1 + lbu, bound) {
            Ok((rest, end)) => {
                let mut out: Vec<Vec<u8>> = Vec::new();
                out.push(label);
                let mut rest_moved = rest;
                let ghost rest_snapshot = rest_moved;
                out.append(&mut rest_moved);
                proof {
                    lemma_vec_u8_deep_view(label);
                    lemma_deep_view_cons(out, label, rest_snapshot);
                }
                Ok((out, end))
            },
            Err(e) => Err(e),
        }
    }
}

/// A domain name as an ordered list of labels, case preserved.
#[derive(Debug)]
pub struct LabelSeq {
    pub labels: Vec<Vec<u8>>,
}

impl View for LabelSeq {
    type V = Labels;

    open spec fn view(&self) -> Labels {
        self.labels.deep_view()
    }
}

/// Compares two label lists; true exactly when their deep views agree.
pub(crate) fn labels_eq(x: &Vec<Vec<u8>>, y: &Vec<Vec<u8>>) -> (r: bool)
    ensures
        r == (x.deep_view() == y.deep_view()),
{
    let r = *x == *y;
    proof {
        let a = *x;
        let b = *y;
        if r {
            assert(a@.len() == b@.len());
            assert forall|i: int| 0 <= i < a@.len() implies a.deep_view()[i]
                == b.deep_view()[i] by {
                assert(a@[i].eq_spec(&b@[i]));
                assert(a@[i].deep_view() =~= b@[i].deep_view());
            }
            assert(a.deep_view() =~= b.deep_view());
        } else {
            if a.deep_view() == b.deep_view() {
                assert(a.deep_view().len() == a@.len());
                assert(b.deep_view().len() == b@.len());
                assert forall|i: int| 0 <= i < a@.len() implies a@[i].eq_spec(&b@[i]) by {
                    lemma_vec_u8_deep_view(a@[i]);
                    lemma_vec_u8_deep_view(b@[i]);
                    assert(a.deep_view()[i] == b.deep_view()[i]);
                    assert(a@[i]@ == b@[i]@);
                }
                assert(a.eq_spec(&b));
                assert(false);
            }
        }
    }
    r
}

impl PartialEq for LabelSeq {
    fn eq(&self, other: &LabelSeq) -> bool {
        labels_eq(&self.labels, &other.labels)
    }
}

impl Eq for LabelSeq {

}

impl vstd::std_specs::cmp::PartialEqSpecImpl for LabelSeq {
    open spec fn obeys_eq_spec() -> bool {
        true
    }

    open spec fn eq_spec(&self, other: &LabelSeq) -> bool {
        self@ == other@
    }
}

impl Clone for LabelSeq {
    fn clone(&self) -> (r: Self)
        ensures
            r@ == self@,
    {
        LabelSeq { labels: clone_labels(&self.labels) }
    }
}

/// Copies a label list, preserving its deep view.
pub(crate) fn clone_labels(v: &Vec<Vec<u8>>) -> (r: Vec<Vec<u8>>)
    ensures
        r.deep_view() == v.deep_view(),
        r@.len() == v@.len(),
{
    let mut out: Vec<Vec<u8>> = Vec::new();
    let n = v.len();
    let mut i: usize = 0;
    while i < n
        invariant
            i <= n,
            n == v@.len(),
            out.deep_view() =~= v.deep_view().subrange(0, i as int),
            out@.len() == i,
        decreases n - i,
    {
        let mut l: Vec<u8> = Vec::new();
        let inner = &v[i];
        let m = inner.len();
        let mut j: usize = 0;
        while j < m
            invariant
                j <= m,
                m == inner@.len(),
                l@ == inner@.subrange(0, j as int),
            decreases m - j,
        {
            l.push(inner[j]);
            proof {
                assert(l@ =~= inner@.subrange(0, j + 1));
            }
            j = j + 1;
        }
        proof {
            assert(l@ =~= inner@);
            lemma_vec_u8_deep_view(l);
        }
        out.push(l);
        proof {
            assert(out.deep_view() =~= v.deep_view().subrange(0, i + 1));
        }
        i = i + 1;
    }
    proof {
        assert(out.deep_view() =~= v.deep_view());
    }
    out
}

impl LabelSeq {
    /// The root name: no labels.
    pub fn new() -> (r: LabelSeq)
        ensures
            r@ == Seq::<Seq<u8>>::empty(),
    {
        let r = LabelSeq { labels: Vec::new() };
        proof {
            assert(r@ =~= Seq::<Seq<u8>>::empty());
        }
        r
    }

    /// Whether every label fits the wire format.
    pub fn is_well_formed(&self) -> (r: bool)
        ensures
            r == wf_labels(self@),
    {
        let n = self.labels.len();
        let mut i: usize = 0;
        while i < n
            invariant
                i <= n,
                n == self.labels@.len(),
                forall|k: int| 0 <= k < i ==> wf_label(#[trigger] self@[k]),
            decreases n - i,
        {
            let len_i = self.labels[i].len();
            if len_i == 0 || len_i > 63 {
                assert(!wf_label(self@[i as int]));
                return false;
            }
            assert(wf_label(self@[i as int]));
            i = i + 1;
        }
        true
    }

    /// Encodes the name at the end of the context's buffer: for each
    /// suffix, from the whole name down, either a two-byte pointer to
    /// where that suffix was first written, or the leading label
    /// emitted literally with the suffix's offset recorded; a name not
    /// cut short by a pointer ends with a zero byte.
    pub fn serialize(&self, context: &mut SerializeContext)
        requires
            old(context).inv(),
            wf_labels(self@),
        ensures
            final(context).inv(),
            ({
                let (bytes, m2) = spec_ser_labels(
                    self@,
                    old(context).locs(),
                    old(context).buf().len() as int,
                );
                final(context).buf() == old(context).buf() + bytes && final(context).locs() == m2
            }),
    {
        let ghost obuf = context.buf();
        let ghost olocs = context.locs();
        let n = self.labels.len();
        proof {
            assert(self@.len() == self.labels@.len());
            assert(self@.skip(0) =~= self@);
            assert(context.buf().skip(obuf.len() as int) =~= Seq::<u8>::empty());
            assert(Seq::<u8>::empty() + spec_ser_labels(self@, olocs, obuf.len() as int).0
                =~= spec_ser_labels(self@, olocs, obuf.len() as int).0);
            assert(context.buf().subrange(0, obuf.len() as int) =~= obuf);
        }
        let mut i: usize = 0;
        while i < n
            invariant
                i <= n,
                n == self@.len(),
                n == self.labels@.len(),
                obuf == old(context).buf(),
                olocs == old(context).locs(),
                context.inv(),
                wf_labels(self@),
                obuf.len() <= context.buf().len(),
                context.buf().subrange(0, obuf.len() as int) == obuf,
                ({
                    let written = context.buf().skip(obuf.len() as int);
                    let (tb, tm) = spec_ser_labels(
                        self@.skip(i as int),
                        context.locs(),
                        context.buf().len() as int,
                    );
                    spec_ser_labels(self@, olocs, obuf.len() as int) == (written + tb, tm)
                }),
            decreases n - i,
        {
            let ghost sfx = self@.skip(i as int);
            let ghost cur_buf = context.buf();
            let ghost cur_locs = context.locs();
            let ghost written = cur_buf.skip(obuf.len() as int);
            proof {
                assert(sfx.len() == n - i);
            }
            let key = SerializeContext::get_labels_key(&self.labels, i);
            proof {
                assert(key.deep_view() == sfx);
            }
            match context.get_pointer(&key) {
                Some(idx) => {
                    let hi = (192 + idx / 256) as u8;
                    let lo = (idx % 256) as u8;
                    context.push(hi);
                    context.push(lo);
                    proof {
                        assert(ptr_bytes(idx as int) =~= seq![hi, lo]);
                        assert(spec_ser_labels(sfx, cur_locs, cur_buf.len() as int) == (
                            ptr_bytes(idx as int),
                            cur_locs,
                        ));
                        let full = spec_ser_labels(self@, olocs, obuf.len() as int);
                        assert(full == (written + seq![hi, lo], cur_locs));
                        assert(full.0 == written + seq![hi, lo]);
                        assert(full.1 == cur_locs);
                        assert(context.buf() =~= obuf + (written + seq![hi, lo]));
                        assert(context.buf() == obuf + full.0);
                        assert(context.locs() == full.1);
                    }
                    return ;
                },
                None => {
                    let here = context.buf_len();
                    if here < 16384 {
                        context.set_pointer(key, here);
                    }
                    let ghost m1 = context.locs();
                    let lab = &self.labels[i];
                    proof {
                        lemma_vec_u8_deep_view(self.labels@[i as int]);
                        assert(lab@ == self@[i as int]);
                        assert(self@[i as int] == sfx[0]);
                        assert(wf_label(self@[i as int]));
                    }
                    let len_byte = lab.len() as u8;
                    context.push(len_byte);
                    context.extend_from_slice(lab.as_slice());
                    proof {
                        let h = sfx[0];
                        assert(context.buf() =~= cur_buf + (seq![len_byte] + h));
                        assert(context.buf().len() == cur_buf.len() + 1 + h.len());
                        assert(sfx.drop_first() =~= self@.skip(i + 1));
                        let r2 = spec_ser_labels(
                            self@.skip(i + 1),
                            m1,
                            cur_buf.len() + 1 + h.len() as int,
                        );
                        assert(spec_ser_labels(sfx, cur_locs, cur_buf.len() as int) == (
                            seq![h.len() as u8] + h + r2.0,
                            r2.1,
                        ));
                        assert(context.buf().skip(obuf.len() as int) =~= written + (seq![
                            len_byte,
                        ] + h));
                        assert(written + (seq![h.len() as u8] + h + r2.0) =~= (written + (seq![
                            len_byte,
                        ] + h)) + r2.0);
                        assert(context.buf().subrange(0, obuf.len() as int) =~= obuf);
                    }
                    i = i + 1;
                },
            }
        }
        let ghost cur_buf = context.buf();
        let ghost cur_locs = context.locs();
        let ghost written = cur_buf.skip(obuf.len() as int);
        context.push(0);
        proof {
            assert(self@.skip(n as int) =~= Seq::<Seq<u8>>::empty());
            assert(spec_ser_labels(Seq::<Seq<u8>>::empty(), cur_locs, cur_buf.len() as int) == (
                seq![0u8],
                cur_locs,
            ));
            assert(context.buf() =~= obuf + (written + seq![0u8]));
        }
    }

    /// Builds a name from its dotted string form, splitting on every
    /// dot; the labels joined by dots give back exactly the string's
    /// bytes, and no label contains a dot.
    pub fn from_string(s: &str) -> (r: LabelSeq)
        ensures
            r@.len() >= 1,
            spec_join_dots(r@) == s.spec_bytes(),
            forall|k: int| 0 <= k < r@.len() ==> !(#[trigger] r@[k]).contains(46u8),
    {
        let bytes: &[u8] = s.as_bytes();
        let n = bytes.len();
        let mut labels: Vec<Vec<u8>> = Vec::new();
        let mut cur: Vec<u8> = Vec::new();
        let mut i: usize = 0;
        proof {
            assert(labels.deep_view().push(cur@) =~= seq![cur@]);
            assert(spec_join_dots(seq![cur@]) == cur@);
            assert(cur@ =~= bytes@.take(0));
        }
        while i < n
            invariant
                i <= n,
                n == bytes@.len(),
                bytes@ == s.spec_bytes(),
                spec_join_dots(labels.deep_view().push(cur@)) == bytes@.take(i as int),
                forall|k: int|
                    0 <= k < labels.deep_view().len() ==> !(
                    #[trigger] labels.deep_view()[k]).contains(46u8),
                !cur@.contains(46u8),
            decreases n - i,
        {
            let ghost pre_acc = labels.deep_view().push(cur@);
            let c = bytes[i];
            if c == 46 {
                let ghost pre_labels = labels;
                let ghost cur_snapshot = cur;
                labels.push(cur);
                cur = Vec::new();
                proof {
                    lemma_deep_view_push(pre_labels, cur_snapshot, labels);
                    lemma_vec_u8_deep_view(cur_snapshot);
                    let acc2 = labels.deep_view().push(cur@);
                    assert(cur@ =~= Seq::<u8>::empty());
                    assert(acc2 =~= pre_acc.push(Seq::<u8>::empty()));
                    lemma_join_dots_snoc(pre_acc, Seq::<u8>::empty());
                    assert(bytes@.take(i as int) + seq![46u8] + Seq::<u8>::empty() =~= bytes@.take(
                        i + 1,
                    ));
                    assert forall|k: int| 0 <= k < labels.deep_view().len() implies !(
                    #[trigger] labels.deep_view()[k]).contains(46u8) by {
                        if k == labels.deep_view().len() - 1 {
                            assert(labels.deep_view()[k] == cur_snapshot@);
                        }
                    }
                }
            } else {
                let ghost pre_cur = cur@;
                cur.push(c);
                proof {
                    let acc2 = labels.deep_view().push(cur@);
                    if labels.deep_view().len() == 0 {
                        assert(pre_acc =~= seq![pre_cur]);
                        assert(acc2 =~= seq![cur@]);
                        assert(spec_join_dots(pre_acc) == pre_cur);
                        assert(spec_join_dots(acc2) == cur@);
                        assert(cur@ =~= bytes@.take(i + 1));
                    } else {
                        lemma_join_dots_snoc(labels.deep_view(), pre_cur);
                        lemma_join_dots_snoc(labels.deep_view(), cur@);
                        assert(spec_join_dots(labels.deep_view()) + seq![46u8] + cur@
                            =~= (spec_join_dots(labels.deep_view()) + seq![46u8] + pre_cur) + seq![
                            c,
                        ]);
                        assert(bytes@.take(i as int) + seq![c] =~= bytes@.take(i + 1));
                    }
                    assert(!cur@.contains(46u8)) by {
                        if cur@.contains(46u8) {
                            let idx = choose|idx: int|
                                0 <= idx < cur@.len() && cur@[idx] == 46u8;
                            if idx < pre_cur.len() {
                                assert(pre_cur[idx] == 46u8);
                            }
                        }
                    }
                }
            }
            i = i + 1;
        }
        let ghost pre_labels = labels;
        let ghost cur_snapshot = cur;
        labels.push(cur);
        let r = LabelSeq { labels };
        proof {
            lemma_deep_view_push(pre_labels, cur_snapshot, labels);
            lemma_vec_u8_deep_view(cur_snapshot);
            assert(bytes@.take(n as int) =~= bytes@);
            assert forall|k: int| 0 <= k < r@.len() implies !(#[trigger] r@[k]).contains(46u8) by {
                if k == r@.len() - 1 {
                    assert(r@[k] == cur_snapshot@);
                }
            }
        }
        r
    }

    /// Decodes a name at the context's cursor and advances it past the
    /// bytes consumed at the outermost level. The cursor is the bound
    /// no compression pointer may reach.
    pub fn parse(context: &mut ParseContext) -> (r: Result<LabelSeq, ParseError>)
        requires
            old(context).pos() >= 0,
        ensures
            final(context).buf() == old(context).buf(),
            ({
                let s = spec_parse_labels(old(context).buf(), old(context).pos(), old(context).pos());
                match r {
                    Ok(ls) => s matches Ok(p) && p.0 == ls@ && final(context).pos() == p.1,
                    Err(e) => s == Err::<(Labels, int), ParseError>(e) && final(context).pos()
                        == old(context).pos(),
                }
            }),
    {
        let pos = context.current_idx();
        match parse_labels_at(context.buf_ref(), pos, pos) {
            Ok((labels, end)) => {
                context.advance(end - pos);
                Ok(LabelSeq { labels })
            },
            Err(e) => Err(e),
        }
    }
}

} // verus!
