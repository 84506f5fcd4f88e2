use dinosaurust::common::{FlagRecordType, ParseContext, SerializeContext};
use dinosaurust::errors::ParseError;
use dinosaurust::header::Header;
use dinosaurust::labels::LabelSeq;
use dinosaurust::message::Message;
use dinosaurust::question::Question;
use dinosaurust::record::{ResourceData, ResourceRecord, SOARecord};

fn name(s: &str) -> LabelSeq {
    LabelSeq::from_string(s)
}

fn a_record(owner: &str, ip: u32) -> ResourceRecord {
    ResourceRecord {
        name: name(owner),
        record_type: FlagRecordType::A,
        class_code: 1,
        ttl: 300,
        length: 4,
        data: ResourceData::A(ip),
    }
}

#[test]
fn from_string_splits_on_dots() {
    let ls = name("example.com");
    assert_eq!(ls.labels.len(), 2);
    assert_eq!(ls.labels[0], b"example".to_vec());
    assert_eq!(ls.labels[1], b"com".to_vec());
}

#[test]
fn empty_labels_are_not_well_formed() {
    assert!(name("example.com").is_well_formed());
    assert!(!name("a..b").is_well_formed());
    assert!(!name("a.").is_well_formed());
    let long = "x".repeat(64);
    assert!(!name(&long).is_well_formed());
}

#[test]
fn zero_byte_terminates_name() {
    let mut pc = ParseContext::new(vec![0, 9, 9]);
    let ls = LabelSeq::parse(&mut pc).expect("root name parses");
    assert_eq!(ls.labels.len(), 0);
    assert_eq!(pc.current_idx(), 1);
}

#[test]
fn literal_lengths_up_to_63_are_labels() {
    let mut buff = vec![1, b'a', 63];
    for _ in 0..63 {
        buff.push(b'x');
    }
    buff.push(0);
    let mut pc = ParseContext::new(buff);
    let ls = LabelSeq::parse(&mut pc).expect("two labels parse");
    assert_eq!(ls.labels.len(), 2);
    assert_eq!(ls.labels[0], vec![b'a']);
    assert_eq!(ls.labels[1].len(), 63);
}

#[test]
fn length_bytes_64_to_191_are_invalid() {
    for lb in [64u8, 100, 191] {
        let mut pc = ParseContext::new(vec![lb, 0, 0]);
        assert_eq!(LabelSeq::parse(&mut pc).unwrap_err(), ParseError::LabelTooLong);
    }
}

#[test]
fn pointer_prefix_needs_second_byte() {
    let mut pc = ParseContext::new(vec![0xC0]);
    assert_eq!(LabelSeq::parse(&mut pc).unwrap_err(), ParseError::UnexpectedEnd);
}

#[test]
fn truncated_label_is_rejected() {
    let mut pc = ParseContext::new(vec![5, b'a', b'b']);
    assert_eq!(LabelSeq::parse(&mut pc).unwrap_err(), ParseError::UnexpectedEnd);
}

#[test]
fn forward_pointer_is_rejected() {
    // a name whose pointer targets its own offset can neither loop nor
    // read out of bounds: it must fail outright
    let mut pc = ParseContext::new(vec![0xC0, 0x00, 0x00]);
    assert_eq!(LabelSeq::parse(&mut pc).unwrap_err(), ParseError::ForwardPointer);
}

#[test]
fn forward_pointer_in_message_is_rejected() {
    // header + a question name that points at itself (offset 12)
    let mut buff = vec![0, 1, 0, 0, 0, 1, 0, 0, 0, 0, 0, 0];
    buff.extend_from_slice(&[0xC0, 12, 0, 1, 0, 1]);
    assert_eq!(Message::parse(buff).unwrap_err(), ParseError::ForwardPointer);
}

#[test]
fn backward_pointer_is_followed() {
    // "a" at offset 0, then a name at offset 3 pointing back to it
    let buff = vec![1, b'a', 0, 0xC0, 0x00];
    let mut pc = ParseContext::new(buff);
    pc.advance(3);
    let ls = LabelSeq::parse(&mut pc).expect("pointer to earlier name parses");
    assert_eq!(ls.labels, vec![vec![b'a']]);
    assert_eq!(pc.current_idx(), 5);
}

#[test]
fn message_round_trip_without_compression() {
    let mut msg = Message::new();
    msg.header.id = 77;
    msg.add_question(Question::new(name("example.com"), FlagRecordType::A));
    msg.add_resource(a_record("cdn.example.net", 0x01020304));
    let bytes = msg.serialize();
    let back = Message::parse(bytes).expect("own encoding must reparse");
    assert_eq!(back.header.id, 77);
    assert_eq!(back.header.n_question, 1);
    assert_eq!(back.header.n_answer, 1);
    assert_eq!(back.questions.len(), 1);
    assert!(back.questions[0].name == name("example.com"));
    assert_eq!(back.questions[0].record_type, 1);
    assert_eq!(back.questions[0].class_code, 1);
    assert_eq!(back.resources.len(), 1);
    assert!(back.resources[0].name == name("cdn.example.net"));
    match back.resources[0].data {
        ResourceData::A(ip) => assert_eq!(ip, 0x01020304),
        _ => panic!("expected an A record"),
    }
}

#[test]
fn message_round_trip_with_compression() {
    // the answer's owner name shares a suffix with the question name
    // and will be emitted as a pointer; parsing must still give back
    // the same message
    let mut msg = Message::new();
    msg.header.id = 5;
    msg.add_question(Question::new(name("www.example.com"), FlagRecordType::A));
    msg.add_resource(a_record("www.example.com", 0xC0000201));
    msg.add_resource(a_record("mail.example.com", 0xC0000202));
    let bytes = msg.serialize();
    let back = Message::parse(bytes).expect("compressed encoding must reparse");
    assert!(back.resources[0].name == name("www.example.com"));
    assert!(back.resources[1].name == name("mail.example.com"));
}

#[test]
fn shared_suffix_saves_bytes_and_reparses() {
    let q1 = Question::new(name("www.example.com"), FlagRecordType::A);
    let q2 = Question::new(name("mail.example.com"), FlagRecordType::A);

    let mut alone1 = SerializeContext::new();
    q1.serialize(&mut alone1);
    let mut alone2 = SerializeContext::new();
    q2.serialize(&mut alone2);

    let mut together = SerializeContext::new();
    q1.serialize(&mut together);
    q2.serialize(&mut together);

    let combined = together.to_vec();
    assert!(combined.len() < alone1.to_vec().len() + alone2.to_vec().len());

    let mut pc = ParseContext::new(combined);
    let b1 = Question::parse(&mut pc).expect("first question reparses");
    let b2 = Question::parse(&mut pc).expect("second question reparses");
    assert!(b1.name == name("www.example.com"));
    assert!(b2.name == name("mail.example.com"));
}

#[test]
fn a_record_with_rdlength_5_fails_with_length_mismatch() {
    // owner ".", type A, class IN, ttl 0, rdlength 5, five data bytes
    let buff = vec![0, 0, 1, 0, 1, 0, 0, 0, 0, 0, 5, 9, 9, 9, 9, 9];
    let mut pc = ParseContext::new(buff);
    assert_eq!(ResourceRecord::parse(&mut pc).unwrap_err(), ParseError::LengthMismatch);
}

#[test]
fn unsupported_record_type_is_rejected() {
    // type 99 is outside the supported set
    let buff = vec![0, 0, 99, 0, 1, 0, 0, 0, 0, 0, 4, 1, 2, 3, 4];
    let mut pc = ParseContext::new(buff);
    assert_eq!(ResourceRecord::parse(&mut pc).unwrap_err(), ParseError::UnsupportedType);
}

#[test]
fn ns_record_rdlength_must_match_name() {
    // NS rdata of 3 bytes ("a" + terminator) declared as 7
    let buff = vec![0, 0, 2, 0, 1, 0, 0, 0, 0, 0, 7, 1, b'a', 0, 9, 9, 9, 9];
    let mut pc = ParseContext::new(buff);
    assert_eq!(ResourceRecord::parse(&mut pc).unwrap_err(), ParseError::LengthMismatch);
}

#[test]
fn soa_record_round_trips() {
    let soa = SOARecord {
        mname: name("ns1.example.com"),
        rname: name("admin.example.com"),
        serial: 2024010101,
        refresh: 7200,
        retry: 3600,
        expire: 1209600,
        minimum: 86400,
    };
    let mut ctx = SerializeContext::new();
    soa.serialize(&mut ctx);
    let mut pc = ParseContext::new(ctx.to_vec());
    let back = SOARecord::parse(&mut pc).expect("soa reparses");
    assert!(back.mname == name("ns1.example.com"));
    assert!(back.rname == name("admin.example.com"));
    assert_eq!(back.serial, 2024010101);
    assert_eq!(back.refresh, 7200);
    assert_eq!(back.retry, 3600);
    assert_eq!(back.expire, 1209600);
    assert_eq!(back.minimum, 86400);
}

#[test]
fn aaaa_record_round_trips() {
    let ip: u128 = 0x2001_0db8_0000_0000_0000_0000_0000_0001;
    let rec = ResourceRecord {
        name: name("v6.example.org"),
        record_type: FlagRecordType::AAAA,
        class_code: 1,
        ttl: 60,
        length: 16,
        data: ResourceData::AAAA(ip),
    };
    let mut msg = Message::new();
    msg.header.id = 9;
    msg.add_resource(rec);
    let back = Message::parse(msg.serialize()).expect("reparses");
    match back.resources[0].data {
        ResourceData::AAAA(got) => assert_eq!(got, ip),
        _ => panic!("expected an AAAA record"),
    }
}

#[test]
fn parse_context_tracks_absolute_offsets() {
    let mut pc = ParseContext::new(vec![10, 20, 30, 40]);
    assert_eq!(pc.current_idx(), 0);
    assert_eq!(pc.current_slice(), &[10, 20, 30, 40]);
    pc.advance(2);
    assert_eq!(pc.current_idx(), 2);
    assert_eq!(pc.current_slice(), &[30, 40]);
    assert_eq!(pc.slice_from(1), &[20, 30, 40]);
}

#[test]
fn serialize_context_records_each_suffix_once() {
    let mut ctx = SerializeContext::new();
    let ls = name("a.b");
    ls.serialize(&mut ctx);
    let key_ab = SerializeContext::get_labels_key(&ls.labels, 0);
    let key_b = SerializeContext::get_labels_key(&ls.labels, 1);
    assert_eq!(ctx.get_pointer(&key_ab), Some(0));
    assert_eq!(ctx.get_pointer(&key_b), Some(2));
    let other = name("zz");
    let missing = SerializeContext::get_labels_key(&other.labels, 0);
    assert_eq!(ctx.get_pointer(&missing), None);
}

#[test]
fn reply_skeleton_copies_questions() {
    let mut req = Message::new();
    req.header.id = 3;
    req.add_question(Question::new(name("example.com"), FlagRecordType::A));
    let rep = Message::reply_to(&req);
    assert_eq!(rep.header.id, 3);
    assert_eq!(rep.header.n_question, 1);
    assert_eq!(rep.header.n_answer, 0);
    assert!(rep.questions[0].name == name("example.com"));
    assert!(rep.resources.is_empty());
}

#[test]
fn message_counts_drive_parsing() {
    // a header that declares one question but carries none
    let buff = vec![0, 1, 0, 0, 0, 1, 0, 0, 0, 0, 0, 0];
    assert_eq!(Message::parse(buff).unwrap_err(), ParseError::UnexpectedEnd);
}
