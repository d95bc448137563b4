use dns_resolver::buffer::PacketBuffer;
use dns_resolver::codes::Error;

fn buffer_with(prefix: &[u8]) -> PacketBuffer {
    let mut bytes = vec![0u8; 512];
    bytes[..prefix.len()].copy_from_slice(prefix);
    PacketBuffer::from_bytes(bytes)
}

#[test]
fn read_u8_advances_cursor() {
    let mut b = buffer_with(&[0xAB, 0xCD]);
    assert_eq!(b.read_u8(), Ok(0xAB));
    assert_eq!(b.read_u8(), Ok(0xCD));
    assert_eq!(b.pos(), 2);
}

#[test]
fn read_u16_is_big_endian() {
    let mut b = buffer_with(&[0x12, 0x34]);
    assert_eq!(b.read_u16(), Ok(0x1234));
    assert_eq!(b.pos(), 2);
}

#[test]
fn read_u32_is_big_endian() {
    let mut b = buffer_with(&[0xDE, 0xAD, 0xBE, 0xEF]);
    assert_eq!(b.read_u32(), Ok(0xDEADBEEF));
    assert_eq!(b.pos(), 4);
}

#[test]
fn write_then_read_round_trips() {
    let mut b = PacketBuffer::new();
    b.write_u8(7).unwrap();
    b.write_u16(0xBEEF).unwrap();
    b.write_u32(0x01020304).unwrap();
    let mut r = PacketBuffer::from_bytes(b.get_range(0, 512).unwrap().to_vec());
    assert_eq!(r.read_u8(), Ok(7));
    assert_eq!(r.read_u16(), Ok(0xBEEF));
    assert_eq!(r.read_u32(), Ok(0x01020304));
}

#[test]
fn reads_past_the_end_are_refused() {
    let mut b = PacketBuffer::new();
    b.step(511).unwrap();
    assert_eq!(b.read_u16(), Err(Error::PacketBufferOver512));
    assert_eq!(b.read_u8(), Ok(0));
    assert_eq!(b.read_u8(), Err(Error::PacketBufferOver512));
    assert_eq!(b.read_u32(), Err(Error::PacketBufferOver512));
}

#[test]
fn writes_past_the_end_are_refused() {
    let mut b = PacketBuffer::new();
    b.step(512).unwrap();
    assert_eq!(b.write_u8(1), Err(Error::PacketBufferOver512));
    let mut b = PacketBuffer::new();
    b.step(511).unwrap();
    assert_eq!(b.write_u16(1), Err(Error::PacketBufferOver512));
    assert_eq!(b.write_u8(9), Ok(()));
}

#[test]
fn step_refuses_to_pass_the_end() {
    let mut b = PacketBuffer::new();
    assert_eq!(b.step(512), Ok(()));
    assert_eq!(b.pos(), 512);
    assert_eq!(b.step(1), Err(Error::PacketBufferOver512));
    assert_eq!(b.pos(), 512);
}

#[test]
fn get_range_bounds() {
    let b = buffer_with(&[1, 2, 3, 4, 5]);
    assert_eq!(b.get_range(1, 3).unwrap(), &[2, 3, 4]);
    assert_eq!(b.get_range(0, 512).unwrap().len(), 512);
    assert_eq!(b.get_range(1, 512).err(), Some(Error::PacketBufferOver512));
    assert_eq!(b.get_range(513, 0).err(), Some(Error::PacketBufferOver512));
}

#[test]
fn set_u16_patches_both_octets() {
    let mut b = PacketBuffer::new();
    b.write_u32(0).unwrap();
    b.set_u16(1, 0xABCD).unwrap();
    assert_eq!(b.get_range(0, 4).unwrap(), &[0x00, 0xAB, 0xCD, 0x00]);
    assert_eq!(b.pos(), 4);
    assert_eq!(b.set_u16(511, 1), Err(Error::PacketBufferOver512));
    assert_eq!(b.set_u16(510, 0x0102), Ok(()));
    assert_eq!(b.get_range(510, 2).unwrap(), &[0x01, 0x02]);
}
