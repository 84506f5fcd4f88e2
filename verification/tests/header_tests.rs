use dinosaurust::common::{
    FlagAA, FlagOpcode, FlagQR, FlagRA, FlagRCode, FlagRD, FlagTC, ParseContext,
    SerializeContext,
};
use dinosaurust::errors::ParseError;
use dinosaurust::header::Header;

fn fresh_header(flags: u16) -> Header {
    Header { id: 0x1234, flags, n_question: 0, n_answer: 0, n_auth_res: 0, n_addi_rrs: 0 }
}

fn wire_round_trip(h: &Header) -> Header {
    let mut ctx = SerializeContext::new();
    h.serialize(&mut ctx);
    let bytes = ctx.to_vec();
    assert_eq!(bytes.len(), 12);
    let mut pc = ParseContext::new(bytes);
    Header::parse(&mut pc).expect("header must reparse")
}

#[test]
fn new_header_is_all_clear_query() {
    let h = Header::new();
    assert_eq!(h.flags, 0);
    assert_eq!(h.get_qr(), FlagQR::Q);
    assert_eq!(h.get_aa(), FlagAA::False);
    assert_eq!(h.get_tc(), FlagTC::False);
    assert_eq!(h.get_rd(), FlagRD::False);
    assert_eq!(h.get_ra(), FlagRA::False);
    assert_eq!(h.get_opcode().unwrap(), FlagOpcode::Query);
    assert_eq!(h.get_rcode().unwrap(), FlagRCode::NoError);
}

#[test]
fn aa_set_then_cleared_survives_wire() {
    // background flags all set, AA toggled on then off
    let mut h = fresh_header(0);
    h.set_qr(FlagQR::R);
    h.set_rd(FlagRD::True);
    h.set_ra(FlagRA::True);
    h.set_tc(FlagTC::True);
    h.set_aa(FlagAA::True);
    h.set_aa(FlagAA::False);
    let back = wire_round_trip(&h);
    assert_eq!(back.get_aa(), FlagAA::False);
    assert_eq!(back.get_qr(), FlagQR::R);
    assert_eq!(back.get_rd(), FlagRD::True);
    assert_eq!(back.get_ra(), FlagRA::True);
    assert_eq!(back.get_tc(), FlagTC::True);
}

#[test]
fn tc_set_then_cleared_survives_wire() {
    let mut h = fresh_header(0);
    h.set_aa(FlagAA::True);
    h.set_tc(FlagTC::True);
    h.set_tc(FlagTC::False);
    let back = wire_round_trip(&h);
    assert_eq!(back.get_tc(), FlagTC::False);
    assert_eq!(back.get_aa(), FlagAA::True);
}

#[test]
fn rd_set_then_cleared_survives_wire() {
    let mut h = fresh_header(0);
    h.set_ra(FlagRA::True);
    h.set_rd(FlagRD::True);
    h.set_rd(FlagRD::False);
    let back = wire_round_trip(&h);
    assert_eq!(back.get_rd(), FlagRD::False);
    assert_eq!(back.get_ra(), FlagRA::True);
    h.set_rd(FlagRD::True);
    assert_eq!(h.get_rd(), FlagRD::True);
}

#[test]
fn ra_set_then_cleared_survives_wire() {
    let mut h = fresh_header(0);
    h.set_rd(FlagRD::True);
    h.set_ra(FlagRA::True);
    h.set_ra(FlagRA::False);
    let back = wire_round_trip(&h);
    assert_eq!(back.get_ra(), FlagRA::False);
    assert_eq!(back.get_rd(), FlagRD::True);
}

#[test]
fn set_rcode_does_not_clobber_other_flags() {
    // the rcode setter must mask only the rcode sub-field
    let mut h = fresh_header(0);
    h.set_ra(FlagRA::True);
    h.set_aa(FlagAA::True);
    h.set_rcode(FlagRCode::NxDomain);
    assert_eq!(h.get_ra(), FlagRA::True);
    assert_eq!(h.get_aa(), FlagAA::True);
    assert_eq!(h.get_rcode().unwrap(), FlagRCode::NxDomain);
    h.set_rcode(FlagRCode::NoError);
    assert_eq!(h.get_rcode().unwrap(), FlagRCode::NoError);
    assert_eq!(h.get_ra(), FlagRA::True);
}

#[test]
fn opcode_round_trips() {
    let mut h = fresh_header(0);
    h.set_opcode(FlagOpcode::Status);
    let back = wire_round_trip(&h);
    assert_eq!(back.get_opcode().unwrap(), FlagOpcode::Status);
}

#[test]
fn header_fields_round_trip() {
    let h = Header {
        id: 0xBEEF,
        flags: 0x8180,
        n_question: 1,
        n_answer: 2,
        n_auth_res: 3,
        n_addi_rrs: 4,
    };
    let back = wire_round_trip(&h);
    assert_eq!(back.id, 0xBEEF);
    assert_eq!(back.flags, 0x8180);
    assert_eq!(back.n_question, 1);
    assert_eq!(back.n_answer, 2);
    assert_eq!(back.n_auth_res, 3);
    assert_eq!(back.n_addi_rrs, 4);
}

#[test]
fn invalid_opcode_is_rejected() {
    // opcode 5 sits at bits 11..15
    let bytes = vec![0, 0, 5 << 3, 0, 0, 0, 0, 0, 0, 0, 0, 0];
    let mut pc = ParseContext::new(bytes);
    assert_eq!(Header::parse(&mut pc).unwrap_err(), ParseError::InvalidOpcode);
}

#[test]
fn invalid_rcode_is_rejected() {
    let bytes = vec![0, 0, 0, 9, 0, 0, 0, 0, 0, 0, 0, 0];
    let mut pc = ParseContext::new(bytes);
    assert_eq!(Header::parse(&mut pc).unwrap_err(), ParseError::InvalidRcode);
}

#[test]
fn short_header_is_rejected() {
    let bytes = vec![0, 0, 0, 0, 0];
    let mut pc = ParseContext::new(bytes);
    assert_eq!(Header::parse(&mut pc).unwrap_err(), ParseError::UnexpectedEnd);
}

#[test]
fn reply_header_overrides_reply_bits() {
    let mut req = fresh_header(0);
    req.set_aa(FlagAA::True);
    req.set_tc(FlagTC::True);
    req.set_opcode(FlagOpcode::IQuery);
    let rep = Header::reply_to(&req);
    assert_eq!(rep.id, req.id);
    assert_eq!(rep.get_qr(), FlagQR::R);
    assert_eq!(rep.get_aa(), FlagAA::False);
    assert_eq!(rep.get_tc(), FlagTC::False);
    assert_eq!(rep.get_rd(), FlagRD::True);
    assert_eq!(rep.get_ra(), FlagRA::True);
    assert_eq!(rep.get_opcode().unwrap(), FlagOpcode::IQuery);
    assert_eq!(rep.n_question, 0);
    assert_eq!(rep.n_answer, 0);
}
