//! The 12-octet fixed message header.
//!
//! Layout on the wire: a 16-bit id, two flag octets, and the four section
//! counts, all big-endian.  The first flag octet packs QR, the four opcode
//! bits, AA, TC and RD; the second packs RA, the three reserved Z bits and
//! the four-bit response code.

use vstd::prelude::*;

use crate::buffer::{be16, splice, u16_be, PacketBuffer, BUF_LEN};
use crate::codes::{Error, ResultCode};

verus! {

/// The decoded header.  The three Z bits are carried opaquely so that any
/// header octet sequence survives a decode-encode round trip.
#[derive(Clone, Copy, Debug, PartialEq, Eq, Structural)]
pub struct Header {
    /// Transaction id; a response echoes the id of its query.
    pub id: u16,
    /// QR: false for queries, true for responses.
    pub is_response: bool,
    /// The four opcode bits, always below 16.
    pub opcode: u8,
    /// AA: the responding server owns the queried zone.
    pub is_authoritative: bool,
    /// TC: the message was cut off at 512 octets.
    pub is_truncated: bool,
    /// RD: the client asks the server to recurse.
    pub recursion_desired: bool,
    /// RA: the server is willing to recurse.
    pub recursion_available: bool,
    /// The three reserved Z bits, kept as found, always below 8.
    pub z: u8,
    /// The four-bit response code.
    pub response_code: ResultCode,
    /// Entries in the question section.
    pub question_count: u16,
    /// Entries in the answer section.
    pub answer_count: u16,
    /// Entries in the authority section.
    pub authority_count: u16,
    /// Entries in the additional section.
    pub additional_count: u16,
}

/// A set flag contributes one to its bit position.
pub open spec fn flag_bit(b: bool) -> u8 {
    if b {
        1
    } else {
        0
    }
}

/// The first flag octet: QR at bit 7, opcode at bits 3 to 6, AA, TC, RD
/// downwards from bit 2.
pub open spec fn flags1_byte(h: Header) -> u8 {
    (flag_bit(h.is_response) * 128 + h.opcode * 8 + flag_bit(h.is_authoritative) * 4 + flag_bit(
        h.is_truncated,
    ) * 2 + flag_bit(h.recursion_desired)) as u8
}

/// The second flag octet: RA at bit 7, the Z bits at bits 4 to 6, the
/// response code in the low four bits.
pub open spec fn flags2_byte(h: Header) -> u8 {
    (flag_bit(h.recursion_available) * 128 + h.z * 16 + h.response_code.spec_to_num()) as u8
}

/// The twelve octets a header encodes to.
pub open spec fn header_wire(h: Header) -> Seq<u8> {
    u16_be(h.id) + seq![flags1_byte(h), flags2_byte(h)] + u16_be(h.question_count) + u16_be(
        h.answer_count,
    ) + u16_be(h.authority_count) + u16_be(h.additional_count)
}

/// The header read off the first twelve octets of a buffer.
pub open spec fn header_from_bytes(b: Seq<u8>) -> Header {
    Header {
        id: be16(b[0], b[1]),
        is_response: b[2] / 128 == 1,
        opcode: ((b[2] / 8) % 16) as u8,
        is_authoritative: (b[2] / 4) % 2 == 1,
        is_truncated: (b[2] / 2) % 2 == 1,
        recursion_desired: b[2] % 2 == 1,
        recursion_available: b[3] / 128 == 1,
        z: ((b[3] / 16) % 8) as u8,
        response_code: ResultCode::spec_from_num((b[3] % 16) as u8),
        question_count: be16(b[4], b[5]),
        answer_count: be16(b[6], b[7]),
        authority_count: be16(b[8], b[9]),
        additional_count: be16(b[10], b[11]),
    }
}

impl Header {
    /// The packed fields stay inside their bit widths.
    pub open spec fn wf(self) -> bool {
        self.opcode < 16 && self.z < 8
    }

    /// The fresh query header: id 6666, every flag clear, every count zero.
    pub open spec fn spec_query_default() -> Header {
        Header {
            id: 6666,
            is_response: false,
            opcode: 0,
            is_authoritative: false,
            is_truncated: false,
            recursion_desired: false,
            recursion_available: false,
            z: 0,
            response_code: ResultCode::NoError,
            question_count: 0,
            answer_count: 0,
            authority_count: 0,
            additional_count: 0,
        }
    }

    /// A fresh query header: id 6666, every flag clear, every count zero.
    pub fn query_default() -> (h: Header)
        ensures
            h.wf(),
            h == Header::spec_query_default(),
    {
        Header {
            id: 6666,
            is_response: false,
            opcode: 0,
            is_authoritative: false,
            is_truncated: false,
            recursion_desired: false,
            recursion_available: false,
            z: 0,
            response_code: ResultCode::NoError,
            question_count: 0,
            answer_count: 0,
            authority_count: 0,
            additional_count: 0,
        }
    }

    /// Encodes the header as its twelve wire octets at the cursor; room for
    /// all of them is checked before anything moves.
    pub fn write(&self, buffer: &mut PacketBuffer) -> (r: Result<(), Error>)
        requires
            old(buffer).wf(),
            self.wf(),
        ensures
            final(buffer).wf(),
            if old(buffer).spec_pos() + 12 <= BUF_LEN {
                r is Ok && final(buffer)@ == splice(
                    old(buffer)@,
                    old(buffer).spec_pos(),
                    header_wire(*self),
                ) && final(buffer).spec_pos() == old(buffer).spec_pos() + 12
            } else {
                r == Result::<(), Error>::Err(Error::PacketBufferOver512) && final(buffer)@ == old(
                    buffer,
                )@ && final(buffer).spec_pos() == old(buffer).spec_pos()
            },
    {
        if buffer.pos() + 12 > BUF_LEN {
            return Err(Error::PacketBufferOver512);
        }
        let ghost orig = buffer@;
        let ghost p0 = buffer.spec_pos();
        buffer.write_u16(self.id)?;
        let f1 = (if self.is_response {
            128u8
        } else {
            0u8
        }) + self.opcode * 8 + (if self.is_authoritative {
            4u8
        } else {
            0u8
        }) + (if self.is_truncated {
            2u8
        } else {
            0u8
        }) + (if self.recursion_desired {
            1u8
        } else {
            0u8
        });
        buffer.write_u8(f1)?;
        let f2 = (if self.recursion_available {
            128u8
        } else {
            0u8
        }) + self.z * 16 + self.response_code.to_num();
        buffer.write_u8(f2)?;
        buffer.write_u16(self.question_count)?;
        buffer.write_u16(self.answer_count)?;
        buffer.write_u16(self.authority_count)?;
        buffer.write_u16(self.additional_count)?;
        proof {
            crate::buffer::lemma_splice_concat(orig, p0, u16_be(self.id), seq![f1]);
            crate::buffer::lemma_splice_concat(orig, p0, u16_be(self.id) + seq![f1], seq![f2]);
            crate::buffer::lemma_splice_concat(
                orig,
                p0,
                u16_be(self.id) + seq![f1] + seq![f2],
                u16_be(self.question_count),
            );
            crate::buffer::lemma_splice_concat(
                orig,
                p0,
                u16_be(self.id) + seq![f1] + seq![f2] + u16_be(self.question_count),
                u16_be(self.answer_count),
            );
            crate::buffer::lemma_splice_concat(
                orig,
                p0,
                u16_be(self.id) + seq![f1] + seq![f2] + u16_be(self.question_count) + u16_be(
                    self.answer_count,
                ),
                u16_be(self.authority_count),
            );
            crate::buffer::lemma_splice_concat(
                orig,
                p0,
                u16_be(self.id) + seq![f1] + seq![f2] + u16_be(self.question_count) + u16_be(
                    self.answer_count,
                ) + u16_be(self.authority_count),
                u16_be(self.additional_count),
            );
            assert(seq![f1] + seq![f2] =~= seq![flags1_byte(*self), flags2_byte(*self)]);
            assert(u16_be(self.id) + seq![f1] + seq![f2] + u16_be(self.question_count) + u16_be(
                self.answer_count,
            ) + u16_be(self.authority_count) + u16_be(self.additional_count) =~= header_wire(
                *self,
            ));
        }
        Ok(())
    }

    /// Decodes a header; the buffer cursor must stand at the very start of
    /// the message, else nothing is read.
    pub fn read(buffer: &mut PacketBuffer) -> (r: Result<Header, Error>)
        requires
            old(buffer).wf(),
        ensures
            final(buffer).wf(),
            final(buffer)@ == old(buffer)@,
            if old(buffer).spec_pos() != 0 {
                r == Result::<Header, Error>::Err(Error::PacketBufferInvalidPosition)
                    && final(buffer).spec_pos() == old(buffer).spec_pos()
            } else {
                r == Result::<Header, Error>::Ok(header_from_bytes(old(buffer)@))
                    && final(buffer).spec_pos() == 12
            },
    {
        if buffer.pos() != 0 {
            return Err(Error::PacketBufferInvalidPosition);
        }
        let id = buffer.read_u16()?;

        let byte = buffer.read_u8()?;
        let is_response = byte / 128 == 1;
        let opcode = (byte / 8) % 16;
        let is_authoritative = (byte / 4) % 2 == 1;
        let is_truncated = (byte / 2) % 2 == 1;
        let recursion_desired = byte % 2 == 1;

        let byte = buffer.read_u8()?;
        let recursion_available = byte / 128 == 1;
        let z = (byte / 16) % 8;
        let response_code = ResultCode::from_num(byte % 16);

        let question_count = buffer.read_u16()?;
        let answer_count = buffer.read_u16()?;
        let authority_count = buffer.read_u16()?;
        let additional_count = buffer.read_u16()?;

        Ok(
            Header {
                id,
                is_response,
                opcode,
                is_authoritative,
                is_truncated,
                recursion_desired,
                recursion_available,
                z,
                response_code,
                question_count,
                answer_count,
                authority_count,
                additional_count,
            },
        )
    }
}

/// A decoded header always keeps its packed fields inside their widths.
pub proof fn lemma_header_from_bytes_wf(b: Seq<u8>)
    ensures
        header_from_bytes(b).wf(),
{
}

/// Decoding recovers every field of a well-formed header from its wire
/// octets: the packing of the two flag octets is lossless.
pub proof fn lemma_header_decode_encode(h: Header)
    requires
        h.wf(),
    ensures
        header_from_bytes(header_wire(h)) == h,
{
    let w = header_wire(h);
    assert(w[0] == (h.id / 256) as u8 && w[1] == (h.id % 256) as u8);
    assert(w[2] == flags1_byte(h) && w[3] == flags2_byte(h));
    assert(w[4] == (h.question_count / 256) as u8 && w[5] == (h.question_count % 256) as u8);
    assert(w[10] == (h.additional_count / 256) as u8 && w[11] == (h.additional_count % 256)
        as u8);
    let f1 = flags1_byte(h);
    let f2 = flags2_byte(h);
    let r = flag_bit(h.is_response);
    let a = flag_bit(h.is_authoritative);
    let t = flag_bit(h.is_truncated);
    let d = flag_bit(h.recursion_desired);
    let ra = flag_bit(h.recursion_available);
    let rc = h.response_code.spec_to_num();
    let op = h.opcode;
    let z = h.z;
    assert(r <= 1 && a <= 1 && t <= 1 && d <= 1 && ra <= 1 && rc <= 5);
    assert(f1 == r * 128 + op * 8 + a * 4 + t * 2 + d && f1 / 128 == r && (f1 / 8) % 16 == op && (
    f1 / 4) % 2 == a && (f1 / 2) % 2 == t && f1 % 2 == d) by (bit_vector)
        requires
            r <= 1,
            op < 16,
            a <= 1,
            t <= 1,
            d <= 1,
            f1 == (r * 128 + op * 8 + a * 4 + t * 2 + d) as u8,
    ;
    assert(f2 == ra * 128 + z * 16 + rc && f2 / 128 == ra && (f2 / 16) % 8 == z && f2 % 16 == rc)
        by (bit_vector)
        requires
            ra <= 1,
            z < 8,
            rc <= 5,
            f2 == (ra * 128 + z * 16 + rc) as u8,
    ;
    h.response_code.lemma_num_round_trip();
    assert(header_from_bytes(w) == h);
}

/// Re-encoding reproduces any twelve header octets whose response-code
/// nibble names one of the six known codes: decode loses nothing else.
pub proof fn lemma_header_encode_decode(b: Seq<u8>)
    requires
        b.len() >= 12,
        b[3] % 16 <= 5,
    ensures
        header_wire(header_from_bytes(b)) =~= b.subrange(0, 12),
{
    let h = header_from_bytes(b);
    let v2 = b[2];
    let v3 = b[3];
    assert((v2 / 128) * 128 + ((v2 / 8) % 16) * 8 + ((v2 / 4) % 2) * 4 + ((v2 / 2) % 2) * 2 + v2
        % 2 == v2) by (bit_vector);
    assert((v3 / 128) * 128 + ((v3 / 16) % 8) * 16 + v3 % 16 == v3) by (bit_vector);
    assert(flags1_byte(h) == v2);
    assert(flags2_byte(h) == v3);
    assert(u16_be(be16(b[0], b[1]))[0] == b[0] && u16_be(be16(b[0], b[1]))[1] == b[1]);
    assert(u16_be(be16(b[4], b[5]))[0] == b[4] && u16_be(be16(b[4], b[5]))[1] == b[5]);
    assert(u16_be(be16(b[6], b[7]))[0] == b[6] && u16_be(be16(b[6], b[7]))[1] == b[7]);
    assert(u16_be(be16(b[8], b[9]))[0] == b[8] && u16_be(be16(b[8], b[9]))[1] == b[9]);
    assert(u16_be(be16(b[10], b[11]))[0] == b[10] && u16_be(be16(b[10], b[11]))[1] == b[11]);
}

} // verus!
