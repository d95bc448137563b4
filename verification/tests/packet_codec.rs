use dns_resolver::buffer::PacketBuffer;
use dns_resolver::codes::ResultCode;
use dns_resolver::header::Header;
use dns_resolver::packet::Packet;
use dns_resolver::question::Question;
use dns_resolver::record::{Ipv4, Record, RecordPreamble, RecordType};

fn a_record(name: &[u8], addr: [u8; 4]) -> Record {
    Record::A {
        preamble: RecordPreamble {
            name: name.to_vec(),
            record_type: RecordType::A,
            class: 1,
            ttl: 300,
            len: 4,
        },
        addr: Ipv4 { octets: addr },
    }
}

fn ns_record(zone: &[u8], host: &[u8]) -> Record {
    Record::NS {
        preamble: RecordPreamble {
            name: zone.to_vec(),
            record_type: RecordType::NS,
            class: 1,
            ttl: 300,
            len: (host.len() + 2) as u16,
        },
        host: host.to_vec(),
    }
}

fn reread(b: &PacketBuffer) -> PacketBuffer {
    PacketBuffer::from_bytes(b.get_range(0, 512).unwrap().to_vec())
}

#[test]
fn packet_round_trips() {
    let mut header = Header::query_default();
    header.id = 0x1234;
    header.is_response = true;
    header.recursion_desired = true;
    header.recursion_available = true;
    header.question_count = 1;
    header.answer_count = 1;
    header.authority_count = 1;
    header.additional_count = 1;
    let packet = Packet {
        header,
        questions: vec![Question::new(b"www.example.com".to_vec(), RecordType::A)],
        answers: vec![a_record(b"www.example.com", [93, 184, 216, 34])],
        authorities: vec![ns_record(b"example.com", b"ns.example.com")],
        additionals: vec![a_record(b"ns.example.com", [198, 51, 100, 7])],
    };
    let mut b = PacketBuffer::new();
    packet.write(&mut b).unwrap();
    let back = Packet::read(reread(&b)).unwrap();
    assert_eq!(back, packet);
}

#[test]
fn parse_reads_as_many_entries_as_the_counts_say() {
    let mut header = Header::query_default();
    header.question_count = 2;
    let packet = Packet {
        header,
        questions: vec![
            Question::new(b"a.example".to_vec(), RecordType::A),
            Question::new(b"b.example".to_vec(), RecordType::NS),
        ],
        answers: vec![],
        authorities: vec![],
        additionals: vec![],
    };
    let mut b = PacketBuffer::new();
    packet.write(&mut b).unwrap();
    let back = Packet::read(reread(&b)).unwrap();
    assert_eq!(back.questions.len(), 2);
    assert_eq!(back.questions[1].name, b"b.example".to_vec());
}

#[test]
fn add_question_counts_it() {
    let mut p = Packet::with_header(Header::query_default());
    p.add_question(b"example.com".to_vec(), RecordType::MX).unwrap();
    assert_eq!(p.header.question_count, 1);
    assert_eq!(p.questions.len(), 1);
    assert_eq!(p.questions[0].question_type, RecordType::MX);
    assert_eq!(p.questions[0].class, 1);
}

#[test]
fn get_random_a_takes_the_first_a_answer() {
    let mut p = Packet::with_header(Header::query_default());
    p.answers.push(ns_record(b"example.com", b"ns.example.com"));
    p.answers.push(a_record(b"example.com", [1, 2, 3, 4]));
    p.answers.push(a_record(b"example.com", [5, 6, 7, 8]));
    assert_eq!(p.get_random_a().unwrap().octets, [1, 2, 3, 4]);
    let empty = Packet::with_header(Header::query_default());
    assert!(empty.get_random_a().is_none());
}

#[test]
fn resolved_ns_takes_glue_for_a_matching_zone() {
    let mut p = Packet::with_header(Header::query_default());
    p.authorities.push(ns_record(b"org", b"ns.org"));
    p.authorities.push(ns_record(b"example.com", b"ns1.example.com"));
    p.authorities.push(ns_record(b"com", b"ns2.example.com"));
    p.additionals.push(a_record(b"ns2.example.com", [9, 9, 9, 9]));
    p.additionals.push(a_record(b"ns1.example.com", [7, 7, 7, 7]));
    // The first authority whose zone closes the name and that has glue wins.
    assert_eq!(
        p.get_resolved_ns(b"www.example.com").unwrap().octets,
        [7, 7, 7, 7]
    );
    // Without glue nothing is resolved.
    assert!(p.get_resolved_ns(b"www.example.org").is_none());
}

#[test]
fn unresolved_ns_matches_without_glue() {
    let mut p = Packet::with_header(Header::query_default());
    p.authorities.push(ns_record(b"org", b"ns.org"));
    p.authorities.push(ns_record(b"example.com", b"ns1.example.com"));
    assert_eq!(
        p.get_unresolved_ns(b"www.example.com").unwrap(),
        b"ns1.example.com".to_vec()
    );
    assert_eq!(p.get_unresolved_ns(b"example.org").unwrap(), b"ns.org".to_vec());
    assert!(p.get_unresolved_ns(b"example.net").is_none());
}

#[test]
fn empty_buffer_parses_to_an_empty_packet() {
    let back = Packet::read(PacketBuffer::new()).unwrap();
    assert_eq!(back.header.id, 0);
    assert_eq!(back.header.response_code, ResultCode::NoError);
    assert!(back.questions.is_empty());
    assert!(back.answers.is_empty());
    assert!(back.authorities.is_empty());
    assert!(back.additionals.is_empty());
}
