//! The 12-byte message header: transaction id, one 16-bit flags word
//! holding six sub-fields at fixed bit positions, and four section
//! counts. Every setter masks out exactly its own field's bits, and
//! each sub-field's position is pinned by one spec function that both
//! the getter and the setter are proved against.

use vstd::prelude::*;

use crate::common::{
    random_u16, FlagAA, FlagOpcode, FlagQR, FlagRA, FlagRCode, FlagRD, FlagTC, SerializeContext,
    ParseContext,
};
use crate::errors::ParseError;
use crate::{spec_be16, spec_u16_of_bytes, u16_of_bytes};

verus! {

/// The query/response bit of a flags word.
pub open spec fn spec_qr(f: u16) -> bool {
    f >> 15 == 1
}

/// The opcode sub-field of a flags word.
pub open spec fn spec_opcode_val(f: u16) -> u16 {
    (f >> 11) & 0xF
}

/// The authoritative-answer bit of a flags word.
pub open spec fn spec_aa(f: u16) -> bool {
    (f >> 10) & 1 == 1
}

/// The truncation bit of a flags word.
pub open spec fn spec_tc(f: u16) -> bool {
    (f >> 9) & 1 == 1
}

/// The recursion-desired bit of a flags word.
pub open spec fn spec_rd(f: u16) -> bool {
    (f >> 8) & 1 == 1
}

/// The recursion-available bit of a flags word.
pub open spec fn spec_ra(f: u16) -> bool {
    (f >> 7) & 1 == 1
}

/// The response-code sub-field of a flags word.
pub open spec fn spec_rcode_val(f: u16) -> u16 {
    f & 0xF
}

/// A flags word with only its query/response bit replaced.
pub open spec fn spec_with_qr(f: u16, v: bool) -> u16 {
    f & 0x7FFF | (if v {
        0x8000
    } else {
        0
    })
}

/// A flags word with only its opcode sub-field replaced.
pub open spec fn spec_with_opcode(f: u16, v: u16) -> u16 {
    (f & 0x87FF | ((v & 0xF) << 11)) as u16
}

/// A flags word with only its authoritative-answer bit replaced.
pub open spec fn spec_with_aa(f: u16, v: bool) -> u16 {
    f & 0xFBFF | (if v {
        0x400
    } else {
        0
    })
}

/// A flags word with only its truncation bit replaced.
pub open spec fn spec_with_tc(f: u16, v: bool) -> u16 {
    f & 0xFDFF | (if v {
        0x200
    } else {
        0
    })
}

/// A flags word with only its recursion-desired bit replaced.
pub open spec fn spec_with_rd(f: u16, v: bool) -> u16 {
    f & 0xFEFF | (if v {
        0x100
    } else {
        0
    })
}

/// A flags word with only its recursion-available bit replaced.
pub open spec fn spec_with_ra(f: u16, v: bool) -> u16 {
    f & 0xFF7F | (if v {
        0x80
    } else {
        0
    })
}

/// A flags word with only its response-code sub-field replaced.
pub open spec fn spec_with_rcode(f: u16, v: u16) -> u16 {
    f & 0xFFF0 | (v & 0xF)
}

/// The message header.
#[derive(Clone, Copy, Debug, PartialEq, Eq, Structural)]
pub struct Header {
    pub id: u16,
    pub flags: u16,
    pub n_question: u16,
    pub n_answer: u16,
    pub n_auth_res: u16,
    pub n_addi_rrs: u16,
}

/// The header's twelve bytes on the wire.
pub open spec fn spec_header_bytes(h: Header) -> Seq<u8> {
    spec_be16(h.id) + spec_be16(h.flags) + spec_be16(h.n_question) + spec_be16(h.n_answer)
        + spec_be16(h.n_auth_res) + spec_be16(h.n_addi_rrs)
}

/// Decodes a header at position `pos`: twelve bytes, with the opcode
/// and response-code sub-fields required to hold supported values.
pub open spec fn spec_parse_header(b: Seq<u8>, pos: int) -> Result<(Header, int), ParseError> {
    if pos < 0 || pos + 12 > b.len() {
        Err(ParseError::UnexpectedEnd)
    } else {
        let flags = spec_u16_of_bytes(b[pos + 2], b[pos + 3]);
        if spec_opcode_val(flags) > 2 {
            Err(ParseError::InvalidOpcode)
        } else if spec_rcode_val(flags) > 3 {
            Err(ParseError::InvalidRcode)
        } else {
            Ok(
                (
                    Header {
                        id: spec_u16_of_bytes(b[pos], b[pos + 1]),
                        flags,
                        n_question: spec_u16_of_bytes(b[pos + 4], b[pos + 5]),
                        n_answer: spec_u16_of_bytes(b[pos + 6], b[pos + 7]),
                        n_auth_res: spec_u16_of_bytes(b[pos + 8], b[pos + 9]),
                        n_addi_rrs: spec_u16_of_bytes(b[pos + 10], b[pos + 11]),
                    },
                    pos + 12,
                ),
            )
        }
    }
}

impl Header {
    /// The header's size on the wire, in bytes.
    pub const SIZE: usize = 12;

    /// A fresh query header: random transaction id, all flags clear,
    /// all counts zero.
    pub fn new() -> (r: Header)
        ensures
            r.flags == 0,
            r.n_question == 0,
            r.n_answer == 0,
            r.n_auth_res == 0,
            r.n_addi_rrs == 0,
    {
        Header {
            id: random_u16(),
            flags: FlagQR::Q.bits(),
            n_question: 0,
            n_answer: 0,
            n_auth_res: 0,
            n_addi_rrs: 0,
        }
    }

    /// The header of a reply skeleton: same transaction id, flags
    /// copied from the request but with QR=response, AA and TC clear,
    /// RD and RA set; all counts zeroed for the caller to repopulate.
    pub fn reply_to(header: &Header) -> (r: Header)
        ensures
            r.id == header.id,
            spec_qr(r.flags),
            spec_opcode_val(r.flags) == spec_opcode_val(header.flags),
            !spec_aa(r.flags),
            !spec_tc(r.flags),
            spec_rd(r.flags),
            spec_ra(r.flags),
            spec_rcode_val(r.flags) == spec_rcode_val(header.flags),
            r.n_question == 0,
            r.n_answer == 0,
            r.n_auth_res == 0,
            r.n_addi_rrs == 0,
    {
        let mut header = Header {
            id: header.id,
            flags: header.flags,
            n_question: 0,
            n_answer: 0,
            n_auth_res: 0,
            n_addi_rrs: 0,
        };
        header.set_qr(FlagQR::R);
        header.set_aa(FlagAA::False);
        header.set_tc(FlagTC::False);
        header.set_rd(FlagRD::True);
        header.set_ra(FlagRA::True);
        header
    }

    pub fn set_qr(&mut self, qr: FlagQR)
        ensures
            *final(self) == (Header { flags: final(self).flags, ..*old(self) }),
            final(self).flags == spec_with_qr(old(self).flags, qr is R),
            spec_qr(final(self).flags) == (qr is R),
            spec_opcode_val(final(self).flags) == spec_opcode_val(old(self).flags),
            spec_aa(final(self).flags) == spec_aa(old(self).flags),
            spec_tc(final(self).flags) == spec_tc(old(self).flags),
            spec_rd(final(self).flags) == spec_rd(old(self).flags),
            spec_ra(final(self).flags) == spec_ra(old(self).flags),
            spec_rcode_val(final(self).flags) == spec_rcode_val(old(self).flags),
    {
        let f = self.flags;
        let bit = qr.bits();
        proof {
            lemma_with_qr(f, qr is R);
        }
        self.flags = f & 0x7FFF | bit;
    }

    pub fn get_qr(&self) -> (r: FlagQR)
        ensures
            (r is R) == spec_qr(self.flags),
    {
        if self.flags >> 15 == 1 {
            FlagQR::R
        } else {
            FlagQR::Q
        }
    }

    pub fn set_opcode(&mut self, opcode: FlagOpcode)
        ensures
            *final(self) == (Header { flags: final(self).flags, ..*old(self) }),
            final(self).flags == spec_with_opcode(old(self).flags, opcode.spec_value()),
            spec_opcode_val(final(self).flags) == opcode.spec_value(),
            spec_qr(final(self).flags) == spec_qr(old(self).flags),
            spec_aa(final(self).flags) == spec_aa(old(self).flags),
            spec_tc(final(self).flags) == spec_tc(old(self).flags),
            spec_rd(final(self).flags) == spec_rd(old(self).flags),
            spec_ra(final(self).flags) == spec_ra(old(self).flags),
            spec_rcode_val(final(self).flags) == spec_rcode_val(old(self).flags),
    {
        let f = self.flags;
        let v = opcode.value();
        proof {
            lemma_with_opcode(f, opcode.spec_value());
        }
        self.flags = f & 0x87FF | ((v & 0xF) << 11);
    }

    pub fn get_opcode(&self) -> (r: Result<FlagOpcode, ParseError>)
        ensures
            match r {
                Ok(op) => op.spec_value() == spec_opcode_val(self.flags),
                Err(e) => e == ParseError::InvalidOpcode && spec_opcode_val(self.flags) > 2,
            },
    {
        let v = (self.flags >> 11) & 0xF;
        if v == 0 {
            Ok(FlagOpcode::Query)
        } else if v == 1 {
            Ok(FlagOpcode::IQuery)
        } else if v == 2 {
            Ok(FlagOpcode::Status)
        } else {
            Err(ParseError::InvalidOpcode)
        }
    }

    pub fn set_aa(&mut self, aa: FlagAA)
        ensures
            *final(self) == (Header { flags: final(self).flags, ..*old(self) }),
            final(self).flags == spec_with_aa(old(self).flags, aa.spec_set()),
            spec_aa(final(self).flags) == aa.spec_set(),
            spec_qr(final(self).flags) == spec_qr(old(self).flags),
            spec_opcode_val(final(self).flags) == spec_opcode_val(old(self).flags),
            spec_tc(final(self).flags) == spec_tc(old(self).flags),
            spec_rd(final(self).flags) == spec_rd(old(self).flags),
            spec_ra(final(self).flags) == spec_ra(old(self).flags),
            spec_rcode_val(final(self).flags) == spec_rcode_val(old(self).flags),
    {
        let f = self.flags;
        let bit: u16 = match aa {
            FlagAA::True => 0x400,
            FlagAA::False => 0,
        };
        proof {
            lemma_with_aa(f, aa.spec_set());
        }
        self.flags = f & 0xFBFF | bit;
    }

    pub fn get_aa(&self) -> (r: FlagAA)
        ensures
            r.spec_set() == spec_aa(self.flags),
    {
        if (self.flags >> 10) & 1 == 1 {
            FlagAA::True
        } else {
            FlagAA::False
        }
    }

    pub fn set_tc(&mut self, tc: FlagTC)
        ensures
            *final(self) == (Header { flags: final(self).flags, ..*old(self) }),
            final(self).flags == spec_with_tc(old(self).flags, tc.spec_set()),
            spec_tc(final(self).flags) == tc.spec_set(),
            spec_qr(final(self).flags) == spec_qr(old(self).flags),
            spec_opcode_val(final(self).flags) == spec_opcode_val(old(self).flags),
            spec_aa(final(self).flags) == spec_aa(old(self).flags),
            spec_rd(final(self).flags) == spec_rd(old(self).flags),
            spec_ra(final(self).flags) == spec_ra(old(self).flags),
            spec_rcode_val(final(self).flags) == spec_rcode_val(old(self).flags),
    {
        let f = self.flags;
        let bit: u16 = match tc {
            FlagTC::True => 0x200,
            FlagTC::False => 0,
        };
        proof {
            lemma_with_tc(f, tc.spec_set());
        }
        self.flags = f & 0xFDFF | bit;
    }

    pub fn get_tc(&self) -> (r: FlagTC)
        ensures
            r.spec_set() == spec_tc(self.flags),
    {
        if (self.flags >> 9) & 1 == 1 {
            FlagTC::True
        } else {
            FlagTC::False
        }
    }

    pub fn set_rd(&mut self, rd: FlagRD)
        ensures
            *final(self) == (Header { flags: final(self).flags, ..*old(self) }),
            final(self).flags == spec_with_rd(old(self).flags, rd.spec_set()),
            spec_rd(final(self).flags) == rd.spec_set(),
            spec_qr(final(self).flags) == spec_qr(old(self).flags),
            spec_opcode_val(final(self).flags) == spec_opcode_val(old(self).flags),
            spec_aa(final(self).flags) == spec_aa(old(self).flags),
            spec_tc(final(self).flags) == spec_tc(old(self).flags),
            spec_ra(final(self).flags) == spec_ra(old(self).flags),
            spec_rcode_val(final(self).flags) == spec_rcode_val(old(self).flags),
    {
        let f = self.flags;
        let bit: u16 = match rd {
            FlagRD::True => 0x100,
            FlagRD::False => 0,
        };
        proof {
            lemma_with_rd(f, rd.spec_set());
        }
        self.flags = f & 0xFEFF | bit;
    }

    pub fn get_rd(&self) -> (r: FlagRD)
        ensures
            r.spec_set() == spec_rd(self.flags),
    {
        if (self.flags >> 8) & 1 == 1 {
            FlagRD::True
        } else {
            FlagRD::False
        }
    }

    pub fn set_ra(&mut self, ra: FlagRA)
        ensures
            *final(self) == (Header { flags: final(self).flags, ..*old(self) }),
            final(self).flags == spec_with_ra(old(self).flags, ra.spec_set()),
            spec_ra(final(self).flags) == ra.spec_set(),
            spec_qr(final(self).flags) == spec_qr(old(self).flags),
            spec_opcode_val(final(self).flags) == spec_opcode_val(old(self).flags),
            spec_aa(final(self).flags) == spec_aa(old(self).flags),
            spec_tc(final(self).flags) == spec_tc(old(self).flags),
            spec_rd(final(self).flags) == spec_rd(old(self).flags),
            spec_rcode_val(final(self).flags) == spec_rcode_val(old(self).flags),
    {
        let f = self.flags;
        let bit: u16 = match ra {
            FlagRA::True => 0x80,
            FlagRA::False => 0,
        };
        proof {
            lemma_with_ra(f, ra.spec_set());
        }
        self.flags = f & 0xFF7F | bit;
    }

    pub fn get_ra(&self) -> (r: FlagRA)
        ensures
            r.spec_set() == spec_ra(self.flags),
    {
        if (self.flags >> 7) & 1 == 1 {
            FlagRA::True
        } else {
            FlagRA::False
        }
    }

    /// Sets the response code, masking out only the rcode sub-field.
    pub fn set_rcode(&mut self, rcode: FlagRCode)
        ensures
            *final(self) == (Header { flags: final(self).flags, ..*old(self) }),
            final(self).flags == spec_with_rcode(old(self).flags, rcode.spec_value()),
            spec_rcode_val(final(self).flags) == rcode.spec_value(),
            spec_qr(final(self).flags) == spec_qr(old(self).flags),
            spec_opcode_val(final(self).flags) == spec_opcode_val(old(self).flags),
            spec_aa(final(self).flags) == spec_aa(old(self).flags),
            spec_tc(final(self).flags) == spec_tc(old(self).flags),
            spec_rd(final(self).flags) == spec_rd(old(self).flags),
            spec_ra(final(self).flags) == spec_ra(old(self).flags),
    {
        let f = self.flags;
        let v = rcode.value();
        proof {
            lemma_with_rcode(f, rcode.spec_value());
        }
        self.flags = f & 0xFFF0 | (v & 0xF);
    }

    pub fn get_rcode(&self) -> (r: Result<FlagRCode, ParseError>)
        ensures
            match r {
                Ok(rc) => rc.spec_value() == spec_rcode_val(self.flags),
                Err(e) => e == ParseError::InvalidRcode && spec_rcode_val(self.flags) > 3,
            },
    {
        let v = self.flags & 0xF;
        if v == 0 {
            Ok(FlagRCode::NoError)
        } else if v == 1 {
            Ok(FlagRCode::FormErr)
        } else if v == 2 {
            Ok(FlagRCode::ServFail)
        } else if v == 3 {
            Ok(FlagRCode::NxDomain)
        } else {
            Err(ParseError::InvalidRcode)
        }
    }

    /// Appends the header's twelve bytes to the output buffer.
    pub fn serialize(&self, context: &mut SerializeContext)
        ensures
            final(context).buf() == old(context).buf() + spec_header_bytes(*self),
            final(context).locs() == old(context).locs(),
            old(context).inv() ==> final(context).inv(),
    {
        let mut val: Vec<u8> = Vec::new();
        val.push((self.id / 256) as u8);
        val.push((self.id % 256) as u8);
        val.push((self.flags / 256) as u8);
        val.push((self.flags % 256) as u8);
        val.push((self.n_question / 256) as u8);
        val.push((self.n_question % 256) as u8);
        val.push((self.n_answer / 256) as u8);
        val.push((self.n_answer % 256) as u8);
        val.push((self.n_auth_res / 256) as u8);
        val.push((self.n_auth_res % 256) as u8);
        val.push((self.n_addi_rrs / 256) as u8);
        val.push((self.n_addi_rrs % 256) as u8);
        proof {
            assert(val@ =~= spec_header_bytes(*self));
        }
        context.append(&mut val);
    }

    /// Decodes a header at the context's cursor and advances past it.
    /// The flags word is validated before anything else is read, as
    /// unsupported opcode or rcode values reject the whole message.
    pub fn parse(context: &mut ParseContext) -> (r: Result<Header, ParseError>)
        ensures
            final(context).buf() == old(context).buf(),
            ({
                let s = spec_parse_header(old(context).buf(), old(context).pos());
                match r {
                    Ok(h) => s matches Ok(p) && p.0 == h && final(context).pos() == p.1,
                    Err(e) => s == Err::<(Header, int), ParseError>(e) && final(context).pos()
                        == old(context).pos(),
                }
            }),
    {
        let pos = context.current_idx();
        let total = context.len();
        if pos > total || total - pos < 12 {
            return Err(ParseError::UnexpectedEnd);
        }
        let flags = u16_of_bytes(context.byte_at(pos + 2), context.byte_at(pos + 3));
        let opcode = (flags >> 11) & 0xF;
        if opcode > 2 {
            return Err(ParseError::InvalidOpcode);
        }
        let rcode = flags & 0xF;
        if rcode > 3 {
            return Err(ParseError::InvalidRcode);
        }
        let header = Header {
            id: u16_of_bytes(context.byte_at(pos), context.byte_at(pos + 1)),
            flags,
            n_question: u16_of_bytes(context.byte_at(pos + 4), context.byte_at(pos + 5)),
            n_answer: u16_of_bytes(context.byte_at(pos + 6), context.byte_at(pos + 7)),
            n_auth_res: u16_of_bytes(context.byte_at(pos + 8), context.byte_at(pos + 9)),
            n_addi_rrs: u16_of_bytes(context.byte_at(pos + 10), context.byte_at(pos + 11)),
        };
        context.advance(12);
        Ok(header)
    }
}

proof fn lemma_with_qr(f: u16, v: bool)
    ensures
        spec_qr(spec_with_qr(f, v)) == v,
        spec_opcode_val(spec_with_qr(f, v)) == spec_opcode_val(f),
        spec_aa(spec_with_qr(f, v)) == spec_aa(f),
        spec_tc(spec_with_qr(f, v)) == spec_tc(f),
        spec_rd(spec_with_qr(f, v)) == spec_rd(f),
        spec_ra(spec_with_qr(f, v)) == spec_ra(f),
        spec_rcode_val(spec_with_qr(f, v)) == spec_rcode_val(f),
{
    let b: u16 = if v {
        0x8000
    } else {
        0
    };
    assert((b == 0 || b == 0x8000) ==> (((f & 0x7FFF | b) >> 15 == 1) == (b == 0x8000) && ((f
        & 0x7FFF | b) >> 11) & 0xF == (f >> 11) & 0xF && ((f & 0x7FFF | b) >> 10) & 1 == (f >> 10)
        & 1 && ((f & 0x7FFF | b) >> 9) & 1 == (f >> 9) & 1 && ((f & 0x7FFF | b) >> 8) & 1 == (f
        >> 8) & 1 && ((f & 0x7FFF | b) >> 7) & 1 == (f >> 7) & 1 && (f & 0x7FFF | b) & 0xF == f
        & 0xF)) by (bit_vector);
}

proof fn lemma_with_opcode(f: u16, v: u16)
    ensures
        spec_opcode_val(spec_with_opcode(f, v)) == v & 0xF,
        v == 0 || v == 1 || v == 2 ==> spec_opcode_val(spec_with_opcode(f, v)) == v,
        spec_qr(spec_with_opcode(f, v)) == spec_qr(f),
        spec_aa(spec_with_opcode(f, v)) == spec_aa(f),
        spec_tc(spec_with_opcode(f, v)) == spec_tc(f),
        spec_rd(spec_with_opcode(f, v)) == spec_rd(f),
        spec_ra(spec_with_opcode(f, v)) == spec_ra(f),
        spec_rcode_val(spec_with_opcode(f, v)) == spec_rcode_val(f),
{
    let nf = (f & 0x87FF | ((v & 0xF) << 11)) as u16;
    assert(nf == (f & 0x87FF | ((v & 0xF) << 11)) as u16 ==> {
        &&& (nf >> 11) & 0xF == v & 0xF
        &&& (v == 0 || v == 1 || v == 2 ==> v & 0xF == v)
        &&& (nf >> 15 == 1) == (f >> 15 == 1)
        &&& (nf >> 10) & 1 == (f >> 10) & 1
        &&& (nf >> 9) & 1 == (f >> 9) & 1
        &&& (nf >> 8) & 1 == (f >> 8) & 1
        &&& (nf >> 7) & 1 == (f >> 7) & 1
        &&& nf & 0xF == f & 0xF
    }) by (bit_vector);
}

proof fn lemma_with_aa(f: u16, v: bool)
    ensures
        spec_aa(spec_with_aa(f, v)) == v,
        spec_qr(spec_with_aa(f, v)) == spec_qr(f),
        spec_opcode_val(spec_with_aa(f, v)) == spec_opcode_val(f),
        spec_tc(spec_with_aa(f, v)) == spec_tc(f),
        spec_rd(spec_with_aa(f, v)) == spec_rd(f),
        spec_ra(spec_with_aa(f, v)) == spec_ra(f),
        spec_rcode_val(spec_with_aa(f, v)) == spec_rcode_val(f),
{
    let b: u16 = if v {
        0x400
    } else {
        0
    };
    assert((b == 0 || b == 0x400) ==> ((((f & 0xFBFF | b) >> 10) & 1 == 1) == (b == 0x400) && ((f
        & 0xFBFF | b) >> 15 == 1) == (f >> 15 == 1) && ((f & 0xFBFF | b) >> 11) & 0xF == (f >> 11)
        & 0xF && ((f & 0xFBFF | b) >> 9) & 1 == (f >> 9) & 1 && ((f & 0xFBFF | b) >> 8) & 1 == (f
        >> 8) & 1 && ((f & 0xFBFF | b) >> 7) & 1 == (f >> 7) & 1 && (f & 0xFBFF | b) & 0xF == f
        & 0xF)) by (bit_vector);
}

proof fn lemma_with_tc(f: u16, v: bool)
    ensures
        spec_tc(spec_with_tc(f, v)) == v,
        spec_qr(spec_with_tc(f, v)) == spec_qr(f),
        spec_opcode_val(spec_with_tc(f, v)) == spec_opcode_val(f),
        spec_aa(spec_with_tc(f, v)) == spec_aa(f),
        spec_rd(spec_with_tc(f, v)) == spec_rd(f),
        spec_ra(spec_with_tc(f, v)) == spec_ra(f),
        spec_rcode_val(spec_with_tc(f, v)) == spec_rcode_val(f),
{
    let b: u16 = if v {
        0x200
    } else {
        0
    };
    assert((b == 0 || b == 0x200) ==> ((((f & 0xFDFF | b) >> 9) & 1 == 1) == (b == 0x200) && ((f
        & 0xFDFF | b) >> 15 == 1) == (f >> 15 == 1) && ((f & 0xFDFF | b) >> 11) & 0xF == (f >> 11)
        & 0xF && ((f & 0xFDFF | b) >> 10) & 1 == (f >> 10) & 1 && ((f & 0xFDFF | b) >> 8) & 1 == (f
        >> 8) & 1 && ((f & 0xFDFF | b) >> 7) & 1 == (f >> 7) & 1 && (f & 0xFDFF | b) & 0xF == f
        & 0xF)) by (bit_vector);
}

proof fn lemma_with_rd(f: u16, v: bool)
    ensures
        spec_rd(spec_with_rd(f, v)) == v,
        spec_qr(spec_with_rd(f, v)) == spec_qr(f),
        spec_opcode_val(spec_with_rd(f, v)) == spec_opcode_val(f),
        spec_aa(spec_with_rd(f, v)) == spec_aa(f),
        spec_tc(spec_with_rd(f, v)) == spec_tc(f),
        spec_ra(spec_with_rd(f, v)) == spec_ra(f),
        spec_rcode_val(spec_with_rd(f, v)) == spec_rcode_val(f),
{
    let b: u16 = if v {
        0x100
    } else {
        0
    };
    assert((b == 0 || b == 0x100) ==> ((((f & 0xFEFF | b) >> 8) & 1 == 1) == (b == 0x100) && ((f
        & 0xFEFF | b) >> 15 == 1) == (f >> 15 == 1) && ((f & 0xFEFF | b) >> 11) & 0xF == (f >> 11)
        & 0xF && ((f & 0xFEFF | b) >> 10) & 1 == (f >> 10) & 1 && ((f & 0xFEFF | b) >> 9) & 1 == (f
        >> 9) & 1 && ((f & 0xFEFF | b) >> 7) & 1 == (f >> 7) & 1 && (f & 0xFEFF | b) & 0xF == f
        & 0xF)) by (bit_vector);
}

proof fn lemma_with_ra(f: u16, v: bool)
    ensures
        spec_ra(spec_with_ra(f, v)) == v,
        spec_qr(spec_with_ra(f, v)) == spec_qr(f),
        spec_opcode_val(spec_with_ra(f, v)) == spec_opcode_val(f),
        spec_aa(spec_with_ra(f, v)) == spec_aa(f),
        spec_tc(spec_with_ra(f, v)) == spec_tc(f),
        spec_rd(spec_with_ra(f, v)) == spec_rd(f),
        spec_rcode_val(spec_with_ra(f, v)) == spec_rcode_val(f),
{
    let b: u16 = if v {
        0x80
    } else {
        0
    };
    assert((b == 0 || b == 0x80) ==> ((((f & 0xFF7F | b) >> 7) & 1 == 1) == (b == 0x80) && ((f
        & 0xFF7F | b) >> 15 == 1) == (f >> 15 == 1) && ((f & 0xFF7F | b) >> 11) & 0xF == (f >> 11)
        & 0xF && ((f & 0xFF7F | b) >> 10) & 1 == (f >> 10) & 1 && ((f & 0xFF7F | b) >> 9) & 1 == (f
        >> 9) & 1 && ((f & 0xFF7F | b) >> 8) & 1 == (f >> 8) & 1 && (f & 0xFF7F | b) & 0xF == f
        & 0xF)) by (bit_vector);
}

proof fn lemma_with_rcode(f: u16, v: u16)
    ensures
        spec_rcode_val(spec_with_rcode(f, v)) == v & 0xF,
        v == 0 || v == 1 || v == 2 || v == 3 ==> spec_rcode_val(spec_with_rcode(f, v)) == v,
        spec_qr(spec_with_rcode(f, v)) == spec_qr(f),
        spec_opcode_val(spec_with_rcode(f, v)) == spec_opcode_val(f),
        spec_aa(spec_with_rcode(f, v)) == spec_aa(f),
        spec_tc(spec_with_rcode(f, v)) == spec_tc(f),
        spec_rd(spec_with_rcode(f, v)) == spec_rd(f),
        spec_ra(spec_with_rcode(f, v)) == spec_ra(f),
{
    let nf = f & 0xFFF0 | (v & 0xF);
    assert(nf == f & 0xFFF0 | (v & 0xF) ==> {
        &&& nf & 0xF == v & 0xF
        &&& (v == 0 || v == 1 || v == 2 || v == 3 ==> v & 0xF == v)
        &&& (nf >> 15 == 1) == (f >> 15 == 1)
        &&& (nf >> 11) & 0xF == (f >> 11) & 0xF
        &&& (nf >> 10) & 1 == (f >> 10) & 1
        &&& (nf >> 9) & 1 == (f >> 9) & 1
        &&& (nf >> 8) & 1 == (f >> 8) & 1
        &&& (nf >> 7) & 1 == (f >> 7) & 1
    }) by (bit_vector);
}

/// A header's wire bytes decode back to exactly that header, provided
/// its opcode and rcode hold supported values.
pub proof fn lemma_header_bytes_parse(h: Header, b: Seq<u8>, pos: int)
    requires
        0 <= pos,
        pos + 12 <= b.len(),
        b.subrange(pos, pos + 12) == spec_header_bytes(h),
        spec_opcode_val(h.flags) <= 2,
        spec_rcode_val(h.flags) <= 3,
    ensures
        spec_parse_header(b, pos) == Ok::<(Header, int), ParseError>((h, pos + 12)),
{
    let hb = spec_header_bytes(h);
    assert(hb =~= seq![
        (h.id / 256) as u8,
        (h.id % 256) as u8,
        (h.flags / 256) as u8,
        (h.flags % 256) as u8,
        (h.n_question / 256) as u8,
        (h.n_question % 256) as u8,
        (h.n_answer / 256) as u8,
        (h.n_answer % 256) as u8,
        (h.n_auth_res / 256) as u8,
        (h.n_auth_res % 256) as u8,
        (h.n_addi_rrs / 256) as u8,
        (h.n_addi_rrs % 256) as u8,
    ]);
    assert forall|k: int| 0 <= k < 12 implies b[pos + k] == hb[k] by {
        assert(b.subrange(pos, pos + 12)[k] == b[pos + k]);
    }
    crate::lemma_be16_round_trip(h.id);
    crate::lemma_be16_round_trip(h.flags);
    crate::lemma_be16_round_trip(h.n_question);
    crate::lemma_be16_round_trip(h.n_answer);
    crate::lemma_be16_round_trip(h.n_auth_res);
    crate::lemma_be16_round_trip(h.n_addi_rrs);
}

/// Each boolean header flag, set and then cleared (or the other way),
/// then carried over the wire, decodes back to the value last set,
/// independent of every other field: writing the four flags in
/// sequence and then serializing and reparsing the header recovers
/// each flag exactly, and leaves QR, opcode and rcode untouched.
pub proof fn lemma_flags_set_clear_wire_round_trip(
    h: Header,
    aa: bool,
    tc: bool,
    rd: bool,
    ra: bool,
)
    requires
        spec_opcode_val(h.flags) <= 2,
        spec_rcode_val(h.flags) <= 3,
    ensures
        ({
            let f2 = spec_with_ra(
                spec_with_rd(spec_with_tc(spec_with_aa(spec_with_aa(h.flags, !aa), aa), tc), rd),
                ra,
            );
            let h2 = Header { flags: f2, ..h };
            &&& spec_aa(f2) == aa
            &&& spec_tc(f2) == tc
            &&& spec_rd(f2) == rd
            &&& spec_ra(f2) == ra
            &&& spec_qr(f2) == spec_qr(h.flags)
            &&& spec_opcode_val(f2) == spec_opcode_val(h.flags)
            &&& spec_rcode_val(f2) == spec_rcode_val(h.flags)
            &&& spec_parse_header(spec_header_bytes(h2), 0) == Ok::<(Header, int), ParseError>(
                (h2, 12),
            )
        }),
{
    let f0 = spec_with_aa(h.flags, !aa);
    let f1 = spec_with_aa(f0, aa);
    let ft = spec_with_tc(f1, tc);
    let fd = spec_with_rd(ft, rd);
    let f2 = spec_with_ra(fd, ra);
    lemma_with_aa(h.flags, !aa);
    lemma_with_aa(f0, aa);
    lemma_with_tc(f1, tc);
    lemma_with_rd(ft, rd);
    lemma_with_ra(fd, ra);
    let h2 = Header { flags: f2, ..h };
    assert(spec_header_bytes(h2).subrange(0, 12) =~= spec_header_bytes(h2));
    lemma_header_bytes_parse(h2, spec_header_bytes(h2), 0);
}

} // verus!
