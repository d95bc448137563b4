use dns_resolver::codes::ResultCode;
use dns_resolver::header::Header;
use dns_resolver::packet::Packet;
use dns_resolver::question::Question;
use dns_resolver::record::{Ipv4, Record, RecordPreamble, RecordType};
use dns_resolver::resolver::{build_query, build_response, root_ns, Action, ResolveMachine, Server};

fn a_record(name: &[u8], addr: [u8; 4]) -> Record {
    Record::A {
        preamble: RecordPreamble {
            name: name.to_vec(),
            record_type: RecordType::A,
            class: 1,
            ttl: 300,
            len: 4,
        },
        addr: Ipv4 { octets: addr },
    }
}

fn ns_record(zone: &[u8], host: &[u8]) -> Record {
    Record::NS {
        preamble: RecordPreamble {
            name: zone.to_vec(),
            record_type: RecordType::NS,
            class: 1,
            ttl: 300,
            len: (host.len() + 2) as u16,
        },
        host: host.to_vec(),
    }
}

fn answer_packet(name: &[u8], addr: [u8; 4]) -> Packet {
    let mut p = Packet::with_header(Header::query_default());
    p.header.is_response = true;
    p.header.answer_count = 1;
    p.answers.push(a_record(name, addr));
    p
}

/// A referral that never answers: one NS for the zone and glue pointing
/// back at the same server.
fn looping_referral() -> Packet {
    let mut p = Packet::with_header(Header::query_default());
    p.header.is_response = true;
    p.header.authority_count = 1;
    p.header.additional_count = 1;
    p.authorities.push(ns_record(b"example.com", b"ns.example.com"));
    p.additionals.push(a_record(b"ns.example.com", [10, 0, 0, 1]));
    p
}

#[test]
fn query_packet_asks_one_question_with_recursion() {
    let q = build_query(b"yahoo.com".to_vec(), RecordType::MX);
    assert!(q.header.recursion_desired);
    assert!(!q.header.is_response);
    assert_eq!(q.header.question_count, 1);
    assert_eq!(q.questions.len(), 1);
    assert_eq!(q.questions[0].name, b"yahoo.com".to_vec());
    assert_eq!(q.questions[0].question_type, RecordType::MX);
    assert!(q.answers.is_empty());
}

#[test]
fn resolution_starts_at_the_root() {
    let (_m, act) = ResolveMachine::start(b"example.com".to_vec(), RecordType::A);
    match act {
        Action::Query { ns, name, qtype } => {
            assert_eq!(ns.octets, [198, 41, 0, 4]);
            assert_eq!(name, b"example.com".to_vec());
            assert_eq!(qtype, RecordType::A);
        }
        Action::Done(_) => panic!("resolution finished before asking anything"),
    }
    assert_eq!(root_ns().octets, [198, 41, 0, 4]);
}

#[test]
fn an_answer_finishes_resolution() {
    let (mut m, _act) = ResolveMachine::start(b"example.com".to_vec(), RecordType::A);
    let resp = answer_packet(b"example.com", [93, 184, 216, 34]);
    match m.step(resp.clone()) {
        Action::Done(p) => assert_eq!(p, resp),
        Action::Query { .. } => panic!("an answered query must finish"),
    }
}

#[test]
fn nxdomain_finishes_resolution() {
    let (mut m, _act) = ResolveMachine::start(b"nope.example".to_vec(), RecordType::A);
    let mut resp = Packet::with_header(Header::query_default());
    resp.header.response_code = ResultCode::NXDomain;
    match m.step(resp) {
        Action::Done(p) => assert_eq!(p.header.response_code, ResultCode::NXDomain),
        Action::Query { .. } => panic!("a denied name must finish"),
    }
}

#[test]
fn a_referral_with_glue_switches_servers() {
    let (mut m, _act) = ResolveMachine::start(b"www.example.com".to_vec(), RecordType::A);
    match m.step(looping_referral()) {
        Action::Query { ns, name, qtype } => {
            assert_eq!(ns.octets, [10, 0, 0, 1]);
            assert_eq!(name, b"www.example.com".to_vec());
            assert_eq!(qtype, RecordType::A);
        }
        Action::Done(_) => panic!("a referral with glue must ask on"),
    }
}

#[test]
fn a_referral_without_glue_starts_a_sub_resolution() {
    let (mut m, _act) = ResolveMachine::start(b"www.example.com".to_vec(), RecordType::A);
    let mut resp = Packet::with_header(Header::query_default());
    resp.header.authority_count = 1;
    resp.authorities.push(ns_record(b"example.com", b"ns.example.com"));
    match m.step(resp) {
        Action::Query { ns, name, qtype } => {
            assert_eq!(ns.octets, [198, 41, 0, 4]);
            assert_eq!(name, b"ns.example.com".to_vec());
            assert_eq!(qtype, RecordType::A);
        }
        Action::Done(_) => panic!("an unglued referral must resolve the nameserver"),
    }
    // The sub-resolution's answer sends the original question to the
    // resolved server.
    match m.step(answer_packet(b"ns.example.com", [10, 2, 3, 4])) {
        Action::Query { ns, name, .. } => {
            assert_eq!(ns.octets, [10, 2, 3, 4]);
            assert_eq!(name, b"www.example.com".to_vec());
        }
        Action::Done(_) => panic!("the parent query still has budget"),
    }
}

#[test]
fn a_bare_response_is_the_last_resort() {
    let (mut m, _act) = ResolveMachine::start(b"www.example.net".to_vec(), RecordType::A);
    // No answers, no authorities: nothing to follow.
    let resp = Packet::with_header(Header::query_default());
    match m.step(resp) {
        Action::Done(p) => assert!(p.answers.is_empty()),
        Action::Query { .. } => panic!("nothing left to follow"),
    }
}

#[test]
fn looping_referrals_hit_the_iteration_cap() {
    let (mut m, mut act) = ResolveMachine::start(b"www.example.com".to_vec(), RecordType::A);
    let mut queries = 0;
    loop {
        match act {
            Action::Query { .. } => {
                queries += 1;
                assert!(queries <= 64, "resolution did not stop within its budget");
                act = m.step(looping_referral());
            }
            Action::Done(p) => {
                assert!(p.answers.is_empty());
                break;
            }
        }
    }
    assert!(queries >= 2);
}

#[test]
fn response_to_a_missing_question_is_formerr() {
    let p = build_response(7, None, None);
    assert_eq!(p.header.id, 7);
    assert!(p.header.is_response);
    assert_eq!(p.header.response_code, ResultCode::FormErr);
    assert_eq!(p.header.question_count, 0);
    assert!(p.questions.is_empty());
}

#[test]
fn response_to_a_failed_lookup_is_servfail() {
    let q = Question::new(b"example.com".to_vec(), RecordType::A);
    let p = build_response(8, Some(q), None);
    assert_eq!(p.header.response_code, ResultCode::ServFail);
    assert!(p.questions.is_empty());
    assert!(p.answers.is_empty());
}

#[test]
fn response_to_a_resolved_lookup_copies_the_sections() {
    let q = Question::new(b"example.com".to_vec(), RecordType::A);
    let mut outcome = answer_packet(b"example.com", [93, 184, 216, 34]);
    outcome.authorities.push(ns_record(b"example.com", b"ns.example.com"));
    outcome.header.response_code = ResultCode::NoError;
    let p = build_response(0xAABB, Some(q.clone()), Some(outcome));
    assert_eq!(p.header.id, 0xAABB);
    assert!(p.header.is_response && p.header.recursion_available && p.header.recursion_desired);
    assert_eq!(p.header.response_code, ResultCode::NoError);
    assert_eq!(p.questions, vec![q]);
    assert_eq!(p.header.question_count, 1);
    assert_eq!(p.header.answer_count, 1);
    assert_eq!(p.header.authority_count, 1);
    assert_eq!(p.header.additional_count, 0);
    assert_eq!(p.answers.len(), 1);
}

#[test]
fn server_keeps_its_endpoint() {
    let s = Server::new(String::from("0.0.0.0"), 2053);
    assert_eq!(s.local_addr, "0.0.0.0");
    assert_eq!(s.local_port, 2053);
}
