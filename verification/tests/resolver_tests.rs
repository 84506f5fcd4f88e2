use dinosaurust::common::{root_servers, FlagAA, FlagQR, FlagRA, FlagRD, FlagRecordType};
use dinosaurust::errors::ResolutionError;
use dinosaurust::forwarder::{extract_answer, IterativeResolver, ResolveAction};
use dinosaurust::header::Header;
use dinosaurust::labels::LabelSeq;
use dinosaurust::message::Message;
use dinosaurust::question::Question;
use dinosaurust::record::{ResourceData, ResourceRecord};

fn name(s: &str) -> LabelSeq {
    LabelSeq::from_string(s)
}

fn a_record(owner: &str, ip: u32) -> ResourceRecord {
    ResourceRecord {
        name: name(owner),
        record_type: FlagRecordType::A,
        class_code: 1,
        ttl: 300,
        length: 4,
        data: ResourceData::A(ip),
    }
}

fn ns_record(owner: &str, server: &str) -> ResourceRecord {
    let data = name(server);
    ResourceRecord {
        name: name(owner),
        record_type: FlagRecordType::NS,
        class_code: 1,
        ttl: 300,
        length: 0,
        data: ResourceData::NS(data),
    }
}

fn empty_reply() -> Message {
    Message {
        header: Header { id: 1, flags: 0, n_question: 0, n_answer: 0, n_auth_res: 0, n_addi_rrs: 0 },
        questions: Vec::new(),
        resources: Vec::new(),
        auth_resources: Vec::new(),
        addi_resources: Vec::new(),
    }
}

/// A delegation reply: one NS record in the authority section with a
/// glue A record in the additional section.
fn delegation_reply(zone: &str, server: &str, glue: u32) -> Message {
    let mut m = empty_reply();
    m.auth_resources.push(ns_record(zone, server));
    m.header.n_auth_res = 1;
    m.addi_resources.push(a_record(server, glue));
    m.header.n_addi_rrs = 1;
    m
}

/// A terminal reply: one A record answering the given name.
fn answer_reply(owner: &str, ip: u32) -> Message {
    let mut m = empty_reply();
    m.resources.push(a_record(owner, ip));
    m.header.n_answer = 1;
    m
}

#[test]
fn root_server_table_holds_the_thirteen_well_known_servers() {
    let roots = root_servers();
    assert_eq!(roots.len(), 13);
    for (i, s) in roots.iter().enumerate() {
        assert!(s.ipv4addr.is_some());
        assert!(s.ipv6addr.is_some());
        assert_eq!(s.port, 53);
        let letter = (b'a' + i as u8) as char;
        let expected = format!("{letter}.root-servers.net");
        assert!(s.name == name(&expected));
    }
    assert_eq!(roots[0].ipv4addr, Some(0xC6290004)); // 198.41.0.4
    assert_eq!(roots[12].ipv4addr, Some(0xCA0C1B21)); // 202.12.27.33
    assert_eq!(roots[8].ipv6addr, Some(0x2001_07fe_0000_0000_0000_0000_0000_0053)); // 2001:7fe::53
}

#[test]
fn extract_answer_collects_servers_and_matching_resources() {
    let mut m = empty_reply();
    m.resources.push(a_record("example.com", 7));
    m.resources.push(a_record("other.com", 8));
    m.auth_resources.push(ns_record("com", "ns1.gtld.net"));
    m.auth_resources.push(ns_record("com", "ns2.gtld.net"));
    m.addi_resources.push(a_record("ns2.gtld.net", 99));
    let ans = extract_answer(&m, &name("example.com"));
    // records matching the queried name are resources; the rest are dropped
    assert_eq!(ans.resources.len(), 1);
    match ans.resources[0].data {
        ResourceData::A(ip) => assert_eq!(ip, 7),
        _ => panic!("expected an A record"),
    }
    // NS records become candidates in order; glue fills ns2 only
    assert_eq!(ans.servers.len(), 2);
    assert!(ans.servers[0].name == name("ns1.gtld.net"));
    assert_eq!(ans.servers[0].ipv4addr, None);
    assert!(ans.servers[1].name == name("ns2.gtld.net"));
    assert_eq!(ans.servers[1].ipv4addr, Some(99));
}

#[test]
fn iterative_resolution_follows_glue_to_the_answer() {
    // a query for example.com type A, with a root set reply that only
    // delegates: NS ns1.example.com plus glue 192.0.2.1; the resolver
    // must query 192.0.2.1 next and return the terminal answer
    let question = Question::new(name("example.com"), FlagRecordType::A);
    let mut req = Message::new();
    req.header.id = 41;
    req.add_question(question.clone());

    let (mut resolver, first) = IterativeResolver::begin(question);
    match first {
        ResolveAction::Query(s) => {
            assert!(s.ipv4addr.is_some());
            assert_eq!(s.port, 53);
        },
        _ => panic!("resolution must start with a query"),
    }

    let reply1 = delegation_reply("example.com", "ns1.example.com", 0xC0000201);
    let second = resolver.on_reply(reply1);
    match second {
        ResolveAction::Query(s) => {
            assert!(s.name == name("ns1.example.com"));
            assert_eq!(s.ipv4addr, Some(0xC0000201)); // 192.0.2.1
            assert_eq!(s.port, 53);
        },
        _ => panic!("a delegation with glue must lead to another query"),
    }

    let reply2 = answer_reply("example.com", 0x5DB8D822); // 93.184.216.34
    let done = resolver.on_reply(reply2);
    let terminal = match done {
        ResolveAction::Done(m) => m,
        _ => panic!("an answer for the queried name ends the resolution"),
    };

    // the client-visible reply: skeleton from the request, answer copied in
    let mut reply = Message::reply_to(&req);
    reply.copy_resources(&terminal);
    assert_eq!(reply.header.n_answer, 1);
    assert_eq!(reply.resources.len(), 1);
    assert!(reply.resources[0].name == name("example.com"));
    match reply.resources[0].data {
        ResourceData::A(ip) => assert_eq!(ip, 0x5DB8D822),
        _ => panic!("expected the A answer"),
    }
    assert_eq!(reply.header.get_qr(), FlagQR::R);
    assert_eq!(reply.header.get_rd(), FlagRD::True);
    assert_eq!(reply.header.get_ra(), FlagRA::True);
    assert_eq!(reply.header.get_aa(), FlagAA::False);
}

#[test]
fn endless_delegations_exhaust_the_iteration_budget() {
    let question = Question::new(name("example.com"), FlagRecordType::A);
    let (mut resolver, _first) = IterativeResolver::begin(question);
    let mut failed = None;
    for step in 0..12 {
        let reply = delegation_reply("example.com", "ns1.example.com", 0xC0000201);
        match resolver.on_reply(reply) {
            ResolveAction::Query(_) => assert!(step < 10, "the cap must stop the loop"),
            ResolveAction::Failed(e) => {
                failed = Some((step, e));
                break;
            },
            ResolveAction::Done(_) => panic!("a delegation is never a terminal answer"),
        }
    }
    let (step, e) = failed.expect("the resolver must fail rather than loop");
    assert_eq!(e, ResolutionError::IterationCapExceeded);
    assert_eq!(step, 10);
}

#[test]
fn glue_less_delegation_opens_a_nested_lookup() {
    let question = Question::new(name("example.com"), FlagRecordType::A);
    let (mut resolver, _first) = IterativeResolver::begin(question);

    // delegation without glue: the resolver must resolve the server's
    // own name first, starting again from the roots
    let mut reply1 = empty_reply();
    reply1.auth_resources.push(ns_record("example.com", "ns1.elsewhere.org"));
    reply1.header.n_auth_res = 1;
    match resolver.on_reply(reply1) {
        ResolveAction::Query(s) => {
            assert!(s.ipv4addr.is_some(), "nested lookups start at an addressed root");
            assert_eq!(s.port, 53);
        },
        _ => panic!("a glue-less delegation must continue via a nested lookup"),
    }
    // inside the nested lookup, the question to send is the delegation
    // server's own name, not the client's question
    let nested_q = resolver.current_question().expect("a frame is active");
    assert!(nested_q.name == name("ns1.elsewhere.org"));
    assert_eq!(nested_q.record_type, 1);

    // the nested answer supplies the server's address; the original
    // question is then sent there
    let reply2 = answer_reply("ns1.elsewhere.org", 0x0A000001);
    match resolver.on_reply(reply2) {
        ResolveAction::Query(s) => {
            assert!(s.name == name("ns1.elsewhere.org"));
            assert_eq!(s.ipv4addr, Some(0x0A000001));
        },
        _ => panic!("the nested answer must revive the pending server"),
    }
    let back_q = resolver.current_question().expect("a frame is active");
    assert!(back_q.name == name("example.com"), "the client's question is current again");

    // and the next terminal answer finishes the client's question
    let reply3 = answer_reply("example.com", 0x5DB8D822);
    match resolver.on_reply(reply3) {
        ResolveAction::Done(m) => {
            assert_eq!(m.resources.len(), 1);
        },
        _ => panic!("the answer for the original name ends the resolution"),
    }
}

#[test]
fn nested_answer_without_address_fails() {
    let question = Question::new(name("example.com"), FlagRecordType::A);
    let (mut resolver, _first) = IterativeResolver::begin(question);
    let mut reply1 = empty_reply();
    reply1.auth_resources.push(ns_record("example.com", "ns1.elsewhere.org"));
    reply1.header.n_auth_res = 1;
    resolver.on_reply(reply1);
    // the nested reply answers with a CNAME instead of an address
    let mut reply2 = empty_reply();
    reply2.resources.push(ResourceRecord {
        name: name("ns1.elsewhere.org"),
        record_type: FlagRecordType::CNAME,
        class_code: 1,
        ttl: 60,
        length: 0,
        data: ResourceData::CNAME(name("other.org")),
    });
    reply2.header.n_answer = 1;
    match resolver.on_reply(reply2) {
        ResolveAction::Failed(e) => assert_eq!(e, ResolutionError::NestedResolutionFailure),
        _ => panic!("a nested answer without any A record cannot continue"),
    }
}

#[test]
fn reply_without_answers_or_candidates_fails() {
    let question = Question::new(name("example.com"), FlagRecordType::A);
    let (mut resolver, _first) = IterativeResolver::begin(question);
    match resolver.on_reply(empty_reply()) {
        ResolveAction::Failed(e) => assert_eq!(e, ResolutionError::EmptyCandidateSet),
        _ => panic!("an empty reply leaves nothing to query"),
    }
}

#[test]
fn unbounded_glue_less_nesting_fails() {
    // every delegation names a server without glue, so each step wants
    // one more nested lookup; the nesting cap must stop the descent
    let question = Question::new(name("example.com"), FlagRecordType::A);
    let (mut resolver, _first) = IterativeResolver::begin(question);
    let mut failed = None;
    for step in 0..8 {
        let mut reply = empty_reply();
        reply.auth_resources.push(ns_record("example.com", "ns1.elsewhere.org"));
        reply.header.n_auth_res = 1;
        match resolver.on_reply(reply) {
            ResolveAction::Query(_) => assert!(step < 5, "nesting must be bounded"),
            ResolveAction::Failed(e) => {
                failed = Some(e);
                break;
            },
            ResolveAction::Done(_) => panic!("a delegation is never a terminal answer"),
        }
    }
    assert_eq!(failed.expect("the descent must stop"), ResolutionError::NestingTooDeep);
}

#[test]
fn timeouts_are_retried_a_bounded_number_of_times() {
    let question = Question::new(name("example.com"), FlagRecordType::A);
    let (mut resolver, first) = IterativeResolver::begin(question);
    let first_server = match first {
        ResolveAction::Query(s) => s,
        _ => panic!("resolution starts with a query"),
    };
    for _ in 0..2 {
        match resolver.on_timeout() {
            ResolveAction::Query(s) => assert!(s.name == first_server.name),
            _ => panic!("the first retries repeat the query"),
        }
    }
    match resolver.on_timeout() {
        ResolveAction::Failed(e) => assert_eq!(e, ResolutionError::TransportFailure),
        _ => panic!("retries are bounded"),
    }
}
