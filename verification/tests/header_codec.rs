use dns_resolver::buffer::PacketBuffer;
use dns_resolver::codes::{Error, ResultCode};
use dns_resolver::header::Header;

fn buffer_with(prefix: &[u8]) -> PacketBuffer {
    let mut bytes = vec![0u8; 512];
    bytes[..prefix.len()].copy_from_slice(prefix);
    PacketBuffer::from_bytes(bytes)
}

const FLAGS_SAMPLE: [u8; 12] = [
    0xAA, 0xBB, 0x81, 0x80, 0x00, 0x01, 0x00, 0x01, 0x00, 0x00, 0x00, 0x00,
];

#[test]
fn header_flags_decode() {
    let mut b = buffer_with(&FLAGS_SAMPLE);
    let h = Header::read(&mut b).unwrap();
    assert_eq!(h.id, 0xAABB);
    assert!(h.is_response);
    assert_eq!(h.opcode, 0);
    assert!(!h.is_authoritative);
    assert!(!h.is_truncated);
    assert!(h.recursion_desired);
    assert!(h.recursion_available);
    assert_eq!(h.z, 0);
    assert_eq!(h.response_code, ResultCode::NoError);
    assert_eq!(h.question_count, 1);
    assert_eq!(h.answer_count, 1);
    assert_eq!(h.authority_count, 0);
    assert_eq!(h.additional_count, 0);
    assert_eq!(b.pos(), 12);
}

#[test]
fn header_flags_reencode() {
    let mut b = buffer_with(&FLAGS_SAMPLE);
    let h = Header::read(&mut b).unwrap();
    let mut out = PacketBuffer::new();
    h.write(&mut out).unwrap();
    assert_eq!(out.get_range(0, 12).unwrap(), &FLAGS_SAMPLE);
}

#[test]
fn arbitrary_header_octets_round_trip() {
    // Every flag set, opcode 13, all three Z bits, rcode Refused.
    let sample: [u8; 12] = [
        0x01, 0x02, 0xEF, 0xF5, 0x12, 0x34, 0x56, 0x78, 0x9A, 0xBC, 0xDE, 0xF0,
    ];
    let mut b = buffer_with(&sample);
    let h = Header::read(&mut b).unwrap();
    assert_eq!(h.opcode, 13);
    assert_eq!(h.z, 7);
    assert_eq!(h.response_code, ResultCode::Refused);
    let mut out = PacketBuffer::new();
    h.write(&mut out).unwrap();
    assert_eq!(out.get_range(0, 12).unwrap(), &sample);
}

#[test]
fn header_read_demands_position_zero() {
    let mut b = buffer_with(&FLAGS_SAMPLE);
    b.step(2).unwrap();
    assert_eq!(Header::read(&mut b).err(), Some(Error::PacketBufferInvalidPosition));
}

#[test]
fn unknown_rcode_collapses_to_no_error() {
    let mut sample = FLAGS_SAMPLE;
    sample[3] = 0x8A;
    let mut b = buffer_with(&sample);
    let h = Header::read(&mut b).unwrap();
    assert_eq!(h.response_code, ResultCode::NoError);
}

#[test]
fn result_code_numbers() {
    assert_eq!(ResultCode::NoError.to_num(), 0);
    assert_eq!(ResultCode::FormErr.to_num(), 1);
    assert_eq!(ResultCode::ServFail.to_num(), 2);
    assert_eq!(ResultCode::NXDomain.to_num(), 3);
    assert_eq!(ResultCode::NotImp.to_num(), 4);
    assert_eq!(ResultCode::Refused.to_num(), 5);
    for n in 0..6u8 {
        assert_eq!(ResultCode::from_num(n).to_num(), n);
    }
    assert_eq!(ResultCode::from_num(9), ResultCode::NoError);
}
