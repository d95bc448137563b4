use dns_resolver::buffer::PacketBuffer;
use dns_resolver::codes::Error;
use dns_resolver::question::Question;
use dns_resolver::record::{Ipv4, Ipv6, Record, RecordPreamble, RecordType};

fn buffer_with(prefix: &[u8]) -> PacketBuffer {
    let mut bytes = vec![0u8; 512];
    bytes[..prefix.len()].copy_from_slice(prefix);
    PacketBuffer::from_bytes(bytes)
}

fn reread(b: &PacketBuffer) -> PacketBuffer {
    PacketBuffer::from_bytes(b.get_range(0, 512).unwrap().to_vec())
}

#[test]
fn question_encodes_name_type_class() {
    let q = Question::new(b"www.example.com".to_vec(), RecordType::A);
    let mut b = PacketBuffer::new();
    q.write(&mut b).unwrap();
    assert_eq!(
        b.get_range(0, 21).unwrap(),
        b"\x03www\x07example\x03com\x00\x00\x01\x00\x01"
    );
}

#[test]
fn question_round_trips() {
    let q = Question::new(b"www.example.com".to_vec(), RecordType::MX);
    let mut b = PacketBuffer::new();
    q.write(&mut b).unwrap();
    let mut r = reread(&b);
    let back = Question::read(&mut r).unwrap();
    assert_eq!(back, q);
}

#[test]
fn record_type_codes() {
    assert_eq!(RecordType::A.to_num(), 1);
    assert_eq!(RecordType::NS.to_num(), 2);
    assert_eq!(RecordType::CNAME.to_num(), 5);
    assert_eq!(RecordType::MX.to_num(), 15);
    assert_eq!(RecordType::AAAA.to_num(), 28);
    assert_eq!(RecordType::Unknown(99).to_num(), 99);
    for n in [1u16, 2, 5, 15, 28, 0, 16, 257] {
        assert_eq!(RecordType::from_num(n).to_num(), n);
    }
    assert_eq!(RecordType::from_num(99), RecordType::Unknown(99));
}

#[test]
fn a_record_decodes() {
    let mut wire = b"\x07example\x03com\x00".to_vec();
    wire.extend_from_slice(&[0x00, 0x01]); // type A
    wire.extend_from_slice(&[0x00, 0x01]); // class IN
    wire.extend_from_slice(&[0x00, 0x00, 0x01, 0x2C]); // ttl 300
    wire.extend_from_slice(&[0x00, 0x04]); // rdlength 4
    wire.extend_from_slice(&[0x5D, 0xB8, 0xD8, 0x22]);
    let mut b = buffer_with(&wire);
    let start = b.pos();
    let rec = Record::read(&mut b).unwrap();
    match rec {
        Record::A { preamble, addr } => {
            assert_eq!(preamble.name, b"example.com".to_vec());
            assert_eq!(preamble.record_type, RecordType::A);
            assert_eq!(preamble.class, 1);
            assert_eq!(preamble.ttl, 300);
            assert_eq!(preamble.len, 4);
            assert_eq!(addr.octets, [93, 184, 216, 34]);
        }
        other => panic!("expected an A record, got {:?}", other),
    }
    assert_eq!(b.pos(), start + wire.len());
}

#[test]
fn mx_record_encodes_then_decodes() {
    let rec = Record::MX {
        preamble: RecordPreamble {
            name: b"example.com".to_vec(),
            record_type: RecordType::MX,
            class: 1,
            ttl: 3600,
            len: 20,
        },
        preference: 10,
        exchange: b"mail.example.com".to_vec(),
    };
    let mut b = PacketBuffer::new();
    rec.write(&mut b).unwrap();
    let mut r = reread(&b);
    let back = Record::read(&mut r).unwrap();
    assert_eq!(back, rec);
    match back {
        Record::MX { preamble, .. } => {
            // The exchange's wire form is its length plus two, and the
            // preference adds two more.
            assert_eq!(preamble.len as usize, b"mail.example.com".len() + 2 + 2);
        }
        other => panic!("expected an MX record, got {:?}", other),
    }
}

#[test]
fn ns_record_back_patches_its_length() {
    let rec = Record::NS {
        preamble: RecordPreamble {
            name: b"com".to_vec(),
            record_type: RecordType::NS,
            class: 1,
            ttl: 60,
            len: 8,
        },
        host: b"ns.com".to_vec(),
    };
    let mut b = PacketBuffer::new();
    rec.write(&mut b).unwrap();
    // name(5) + type/class(4) + ttl(4) = 13; rdlength patched at 13..15.
    assert_eq!(b.get_range(13, 2).unwrap(), &[0x00, 0x08]);
    let mut r = reread(&b);
    assert_eq!(Record::read(&mut r).unwrap(), rec);
}

#[test]
fn aaaa_record_round_trips() {
    let rec = Record::AAAA {
        preamble: RecordPreamble {
            name: b"v6.example.com".to_vec(),
            record_type: RecordType::AAAA,
            class: 1,
            ttl: 7,
            len: 16,
        },
        addr: Ipv6::new([0x2001, 0x0db8, 0, 0, 0, 0, 0, 0x0001]),
    };
    let mut b = PacketBuffer::new();
    rec.write(&mut b).unwrap();
    let mut r = reread(&b);
    assert_eq!(Record::read(&mut r).unwrap(), rec);
}

#[test]
fn cname_record_round_trips() {
    let rec = Record::CNAME {
        preamble: RecordPreamble {
            name: b"alias.example.com".to_vec(),
            record_type: RecordType::CNAME,
            class: 1,
            ttl: 100,
            len: 13,
        },
        host: b"example.com".to_vec(),
    };
    let mut b = PacketBuffer::new();
    rec.write(&mut b).unwrap();
    let mut r = reread(&b);
    assert_eq!(Record::read(&mut r).unwrap(), rec);
}

#[test]
fn unknown_record_skips_its_payload() {
    let mut wire = b"\x03odd\x00".to_vec();
    wire.extend_from_slice(&[0x00, 0x63]); // type 99
    wire.extend_from_slice(&[0x00, 0x01]);
    wire.extend_from_slice(&[0x00, 0x00, 0x00, 0x05]);
    wire.extend_from_slice(&[0x00, 0x03]); // rdlength 3
    wire.extend_from_slice(&[0xDE, 0xAD, 0xBE]);
    let mut b = buffer_with(&wire);
    let rec = Record::read(&mut b).unwrap();
    match rec {
        Record::Unknown { preamble } => {
            assert_eq!(preamble.record_type, RecordType::Unknown(99));
            assert_eq!(preamble.len, 3);
        }
        other => panic!("expected an unknown record, got {:?}", other),
    }
    // Cursor advanced by the preamble (5 + 10) plus rdlength 3.
    assert_eq!(b.pos(), 18);
}

#[test]
fn unknown_record_writes_nothing() {
    let rec = Record::Unknown {
        preamble: RecordPreamble {
            name: b"odd".to_vec(),
            record_type: RecordType::Unknown(99),
            class: 1,
            ttl: 5,
            len: 3,
        },
    };
    let mut b = PacketBuffer::new();
    assert_eq!(rec.write(&mut b), Ok(()));
    assert_eq!(b.pos(), 0);
}

#[test]
fn record_whose_payload_misstates_its_length_is_refused() {
    let mut wire = b"\x01a\x00".to_vec();
    wire.extend_from_slice(&[0x00, 0x01]); // type A
    wire.extend_from_slice(&[0x00, 0x01]);
    wire.extend_from_slice(&[0x00, 0x00, 0x00, 0x01]);
    wire.extend_from_slice(&[0x00, 0x07]); // rdlength 7 but A data is 4
    wire.extend_from_slice(&[1, 2, 3, 4]);
    let mut b = buffer_with(&wire);
    assert_eq!(
        Record::read(&mut b).err(),
        Some(Error::PacketBufferInvalidPosition)
    );
}

#[test]
fn ipv4_octets_are_kept_in_order() {
    let ip = Ipv4::new(9, 9, 9, 9);
    assert_eq!(ip.octets, [9, 9, 9, 9]);
}

#[test]
fn every_variant_shows_its_preamble() {
    let rec = Record::A {
        preamble: RecordPreamble {
            name: b"example.com".to_vec(),
            record_type: RecordType::A,
            class: 1,
            ttl: 300,
            len: 4,
        },
        addr: Ipv4::new(93, 184, 216, 34),
    };
    assert_eq!(rec.preamble().name, b"example.com".to_vec());
    assert_eq!(rec.preamble().ttl, 300);
}
