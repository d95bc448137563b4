use dns_resolver::buffer::PacketBuffer;
use dns_resolver::codes::Error;

fn buffer_with(prefix: &[u8]) -> PacketBuffer {
    let mut bytes = vec![0u8; 512];
    bytes[..prefix.len()].copy_from_slice(prefix);
    PacketBuffer::from_bytes(bytes)
}

#[test]
fn qname_encodes_length_prefixed_labels() {
    let mut b = PacketBuffer::new();
    b.write_qname(b"www.example.com").unwrap();
    assert_eq!(
        b.get_range(0, 17).unwrap(),
        b"\x03www\x07example\x03com\x00"
    );
    assert_eq!(b.pos(), 17);
}

#[test]
fn qname_round_trips_lowercased() {
    let mut b = PacketBuffer::new();
    b.write_qname(b"WWW.Example.COM").unwrap();
    let mut r = PacketBuffer::from_bytes(b.get_range(0, 512).unwrap().to_vec());
    assert_eq!(r.read_qname().unwrap(), b"www.example.com".to_vec());
    assert_eq!(r.pos(), 17);
}

#[test]
fn empty_name_is_two_zero_octets() {
    let mut b = PacketBuffer::new();
    b.write_qname(b"").unwrap();
    assert_eq!(b.get_range(0, 2).unwrap(), &[0u8, 0u8]);
    assert_eq!(b.pos(), 2);
}

#[test]
fn overlong_label_is_refused() {
    let mut b = PacketBuffer::new();
    let long = vec![b'a'; 63];
    assert_eq!(b.write_qname(&long), Err(Error::LabelLengthOver63));
    assert_eq!(b.pos(), 0);
    let almost = vec![b'a'; 62];
    assert_eq!(b.write_qname(&almost), Ok(()));
}

#[test]
fn name_without_room_is_refused() {
    let mut b = PacketBuffer::new();
    b.step(508).unwrap();
    assert_eq!(b.write_qname(b"abc"), Err(Error::PacketBufferOver512));
    assert_eq!(b.pos(), 508);
    let mut b = PacketBuffer::new();
    b.step(507).unwrap();
    assert_eq!(b.write_qname(b"abc"), Ok(()));
}

#[test]
fn compressed_name_decodes_through_pointer() {
    // 03 w w w 06 g o o g l e 00, then a pointer to offset 4.
    let mut wire = b"\x03www\x06google\x00".to_vec();
    wire.extend_from_slice(&[0xC0, 0x04]);
    let mut b = buffer_with(&wire);
    b.step(12).unwrap();
    assert_eq!(b.read_qname().unwrap(), b"google".to_vec());
    assert_eq!(b.pos(), 14);

    let mut b = buffer_with(&wire);
    assert_eq!(b.read_qname().unwrap(), b"www.google".to_vec());
    assert_eq!(b.pos(), 12);
}

#[test]
fn self_pointer_hits_the_jump_cap() {
    let mut b = buffer_with(&[0xC0, 0x00]);
    assert_eq!(b.read_qname(), Err(Error::MaxJumpsAttained));
}

#[test]
fn pointer_chain_beyond_five_hops_is_refused() {
    // Six pointers, each hopping two octets forward, then a real name.
    let mut wire = Vec::new();
    for i in 0..6u8 {
        wire.push(0xC0);
        wire.push(2 * (i + 1));
    }
    wire.extend_from_slice(b"\x03www\x00");
    let mut b = buffer_with(&wire);
    assert_eq!(b.read_qname(), Err(Error::MaxJumpsAttained));
}

#[test]
fn four_hops_still_decode() {
    let mut wire = Vec::new();
    for i in 0..4u8 {
        wire.push(0xC0);
        wire.push(2 * (i + 1));
    }
    wire.extend_from_slice(b"\x03www\x00");
    let mut b = buffer_with(&wire);
    assert_eq!(b.read_qname().unwrap(), b"www".to_vec());
    // The cursor stands just past the first pointer.
    assert_eq!(b.pos(), 2);
}

#[test]
fn non_ascii_octets_pass_through_unfolded() {
    let mut b = PacketBuffer::new();
    b.write_qname(&[0x7E, 0x41, b'.', 0x5A]).unwrap();
    let mut r = PacketBuffer::from_bytes(b.get_range(0, 512).unwrap().to_vec());
    assert_eq!(r.read_qname().unwrap(), vec![0x7E, 0x61, b'.', 0x7A]);
}
