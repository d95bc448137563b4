//! Resource records: the tagged union of record variants, their common
//! preamble, and the per-variant RDATA codec with its length back-patch.

use vstd::prelude::*;

use crate::buffer::{
    be16, be32, labels_valid, splice, u16_be, u32_be, PacketBuffer, BUF_LEN,
};
use crate::codes::Error;
use crate::name::{lemma_name_wire_len, lemma_scan_end, name_valid, name_wire, scan_name};

verus! {

/// The record type code of a resource record or question.  `Unknown`
/// preserves any code the codec does not interpret.
#[derive(Clone, Copy, Debug, PartialEq, Eq, Structural)]
pub enum RecordType {
    Unknown(u16),
    A,
    NS,
    CNAME,
    MX,
    AAAA,
}

impl RecordType {
    /// The 16-bit code this type encodes to.
    pub open spec fn spec_to_num(self) -> u16 {
        match self {
            RecordType::A => 1,
            RecordType::NS => 2,
            RecordType::CNAME => 5,
            RecordType::MX => 15,
            RecordType::AAAA => 28,
            RecordType::Unknown(x) => x,
        }
    }

    /// The type a 16-bit code decodes to.
    pub open spec fn spec_from_num(value: u16) -> RecordType {
        if value == 1 {
            RecordType::A
        } else if value == 2 {
            RecordType::NS
        } else if value == 5 {
            RecordType::CNAME
        } else if value == 15 {
            RecordType::MX
        } else if value == 28 {
            RecordType::AAAA
        } else {
            RecordType::Unknown(value)
        }
    }

    #[verifier::when_used_as_spec(spec_to_num)]
    pub fn to_num(self) -> (n: u16)
        ensures
            n == self.spec_to_num(),
    {
        match self {
            RecordType::A => 1,
            RecordType::NS => 2,
            RecordType::CNAME => 5,
            RecordType::MX => 15,
            RecordType::AAAA => 28,
            RecordType::Unknown(x) => x,
        }
    }

    #[verifier::when_used_as_spec(spec_from_num)]
    pub fn from_num(value: u16) -> (r: RecordType)
        ensures
            r == RecordType::spec_from_num(value),
    {
        match value {
            1 => RecordType::A,
            2 => RecordType::NS,
            5 => RecordType::CNAME,
            15 => RecordType::MX,
            28 => RecordType::AAAA,
            _ => RecordType::Unknown(value),
        }
    }

    /// Every code decodes to a type that re-encodes to the same code.
    pub proof fn lemma_num_round_trip(value: u16)
        ensures
            RecordType::spec_from_num(value).spec_to_num() == value,
    {
    }
}

/// An IPv4 address as its four octets.
#[derive(Clone, Copy, Debug, PartialEq, Eq)]
pub struct Ipv4 {
    pub octets: [u8; 4],
}

impl Ipv4 {
    pub fn new(o0: u8, o1: u8, o2: u8, o3: u8) -> (ip: Ipv4)
        ensures
            ip.octets@ == seq![o0, o1, o2, o3],
    {
        let ip = Ipv4 { octets: [o0, o1, o2, o3] };
        proof {
            assert(ip.octets@ =~= seq![o0, o1, o2, o3]);
        }
        ip
    }
}

/// An IPv6 address as its eight 16-bit segments.
#[derive(Clone, Copy, Debug, PartialEq, Eq)]
pub struct Ipv6 {
    pub segments: [u16; 8],
}

impl Ipv6 {
    pub fn new(segments: [u16; 8]) -> (ip: Ipv6)
        ensures
            ip.segments@ == segments@,
    {
        Ipv6 { segments }
    }
}

/// What every resource record starts with: the owner name, the type code,
/// the class, the time to live, and the announced RDATA length.
#[derive(Clone, Debug, PartialEq, Eq)]
pub struct RecordPreamble {
    /// The owner name, lowercase and dot-joined.
    pub name: Vec<u8>,
    /// The record type the code decoded to.
    pub record_type: RecordType,
    /// The class, in practice always 1.
    pub class: u16,
    /// Seconds the record may be cached.
    pub ttl: u32,
    /// Octets of RDATA that follow the preamble.
    pub len: u16,
}

/// The spec-level image of a preamble.
pub struct PreambleV {
    pub name: Seq<u8>,
    pub record_type: RecordType,
    pub class: u16,
    pub ttl: u32,
    pub len: u16,
}

impl View for RecordPreamble {
    type V = PreambleV;

    open spec fn view(&self) -> PreambleV {
        PreambleV {
            name: self.name@,
            record_type: self.record_type,
            class: self.class,
            ttl: self.ttl,
            len: self.len,
        }
    }
}

/// A resource record: the preamble plus the decoded RDATA of the variants
/// this codec interprets, or nothing for a type it passes over.
#[derive(Clone, Debug, PartialEq, Eq)]
pub enum Record {
    Unknown { preamble: RecordPreamble },
    A { preamble: RecordPreamble, addr: Ipv4 },
    NS { preamble: RecordPreamble, host: Vec<u8> },
    CNAME { preamble: RecordPreamble, host: Vec<u8> },
    MX { preamble: RecordPreamble, preference: u16, exchange: Vec<u8> },
    AAAA { preamble: RecordPreamble, addr: Ipv6 },
}

/// The spec-level image of a record: names and addresses as sequences.
pub enum RecordV {
    Unknown { preamble: PreambleV },
    A { preamble: PreambleV, addr: Seq<u8> },
    NS { preamble: PreambleV, host: Seq<u8> },
    CNAME { preamble: PreambleV, host: Seq<u8> },
    MX { preamble: PreambleV, preference: u16, exchange: Seq<u8> },
    AAAA { preamble: PreambleV, addr: Seq<u16> },
}

impl View for Record {
    type V = RecordV;

    open spec fn view(&self) -> RecordV {
        match self {
            Record::Unknown { preamble } => RecordV::Unknown { preamble: preamble@ },
            Record::A { preamble, addr } => RecordV::A {
                preamble: preamble@,
                addr: addr.octets@,
            },
            Record::NS { preamble, host } => RecordV::NS { preamble: preamble@, host: host@ },
            Record::CNAME { preamble, host } => RecordV::CNAME {
                preamble: preamble@,
                host: host@,
            },
            Record::MX { preamble, preference, exchange } => RecordV::MX {
                preamble: preamble@,
                preference: *preference,
                exchange: exchange@,
            },
            Record::AAAA { preamble, addr } => RecordV::AAAA {
                preamble: preamble@,
                addr: addr.segments@,
            },
        }
    }
}

impl Record {
    /// The preamble common to every variant.
    pub fn preamble(&self) -> (p: &RecordPreamble)
        ensures
            p@ == self.spec_preamble(),
    {
        match self {
            Record::Unknown { preamble } => preamble,
            Record::A { preamble, .. } => preamble,
            Record::NS { preamble, .. } => preamble,
            Record::CNAME { preamble, .. } => preamble,
            Record::MX { preamble, .. } => preamble,
            Record::AAAA { preamble, .. } => preamble,
        }
    }

    /// The preamble of the spec image.
    pub open spec fn spec_preamble(&self) -> PreambleV {
        match self@ {
            RecordV::Unknown { preamble } => preamble,
            RecordV::A { preamble, .. } => preamble,
            RecordV::NS { preamble, .. } => preamble,
            RecordV::CNAME { preamble, .. } => preamble,
            RecordV::MX { preamble, .. } => preamble,
            RecordV::AAAA { preamble, .. } => preamble,
        }
    }
}

/// The preamble of a record image, whatever its variant.
pub open spec fn rv_preamble(r: RecordV) -> PreambleV {
    match r {
        RecordV::Unknown { preamble } => preamble,
        RecordV::A { preamble, .. } => preamble,
        RecordV::NS { preamble, .. } => preamble,
        RecordV::CNAME { preamble, .. } => preamble,
        RecordV::MX { preamble, .. } => preamble,
        RecordV::AAAA { preamble, .. } => preamble,
    }
}

/// The preamble octets written for a record: owner name, type code, class
/// 1, time to live, and the RDATA length.
pub open spec fn preamble_wire(name: Seq<u8>, tnum: u16, ttl: u32, rdlen: u16) -> Seq<u8> {
    name_wire(name) + u16_be(tnum) + u16_be(1) + u32_be(ttl) + u16_be(rdlen)
}

/// The octets a record encodes to.  An interpreted variant recomputes its
/// RDATA length from what it actually writes; an `Unknown` record is passed
/// over entirely and contributes nothing.
pub open spec fn record_wire(r: RecordV) -> Seq<u8> {
    match r {
        RecordV::Unknown { .. } => Seq::<u8>::empty(),
        RecordV::A { preamble, addr } => preamble_wire(preamble.name, 1, preamble.ttl, 4) + addr,
        RecordV::NS { preamble, host } => preamble_wire(
            preamble.name,
            2,
            preamble.ttl,
            (host.len() + 2) as u16,
        ) + name_wire(host),
        RecordV::CNAME { preamble, host } => preamble_wire(
            preamble.name,
            5,
            preamble.ttl,
            (host.len() + 2) as u16,
        ) + name_wire(host),
        RecordV::MX { preamble, preference, exchange } => preamble_wire(
            preamble.name,
            15,
            preamble.ttl,
            (exchange.len() + 4) as u16,
        ) + u16_be(preference) + name_wire(exchange),
        RecordV::AAAA { preamble, addr } => preamble_wire(preamble.name, 28, preamble.ttl, 16)
            + u16_be(addr[0]) + u16_be(addr[1]) + u16_be(addr[2]) + u16_be(addr[3]) + u16_be(
            addr[4],
        ) + u16_be(addr[5]) + u16_be(addr[6]) + u16_be(addr[7]),
    }
}

/// Writes the preamble octets: owner name, type code, class 1, time to
/// live, and an RDATA length (a placeholder when it is patched later).
fn write_preamble(
    buffer: &mut PacketBuffer,
    name: &[u8],
    tnum: u16,
    ttl: u32,
    rdlen: u16,
) -> (r: Result<(), Error>)
    requires
        old(buffer).wf(),
        name_valid(name@),
        old(buffer).spec_pos() + name@.len() + 12 <= BUF_LEN,
    ensures
        final(buffer).wf(),
        r is Ok,
        final(buffer)@ == splice(
            old(buffer)@,
            old(buffer).spec_pos(),
            preamble_wire(name@, tnum, ttl, rdlen),
        ),
        final(buffer).spec_pos() == old(buffer).spec_pos() + name@.len() + 12,
{
    let ghost orig = buffer@;
    let ghost p0 = buffer.spec_pos();
    proof {
        lemma_name_wire_len(name@);
    }
    buffer.write_qname(name)?;
    buffer.write_u16(tnum)?;
    buffer.write_u16(1)?;
    buffer.write_u32(ttl)?;
    buffer.write_u16(rdlen)?;
    proof {
        crate::buffer::lemma_splice_concat(orig, p0, name_wire(name@), u16_be(tnum));
        crate::buffer::lemma_splice_concat(orig, p0, name_wire(name@) + u16_be(tnum), u16_be(1));
        crate::buffer::lemma_splice_concat(
            orig,
            p0,
            name_wire(name@) + u16_be(tnum) + u16_be(1),
            u32_be(ttl),
        );
        crate::buffer::lemma_splice_concat(
            orig,
            p0,
            name_wire(name@) + u16_be(tnum) + u16_be(1) + u32_be(ttl),
            u16_be(rdlen),
        );
    }
    Ok(())
}

impl Record {
    /// Encodes the record at the cursor.  A name with an overlong label is
    /// refused first, then a record the buffer has no room for; either way
    /// nothing is written.  An `Unknown` record is passed over silently.
    #[verifier::rlimit(100)]
    pub fn write(&self, buffer: &mut PacketBuffer) -> (r: Result<(), Error>)
        requires
            old(buffer).wf(),
        ensures
            final(buffer).wf(),
            if !record_names_valid(self@) {
                r == Result::<(), Error>::Err(Error::LabelLengthOver63) && final(buffer)@ == old(
                    buffer,
                )@ && final(buffer).spec_pos() == old(buffer).spec_pos()
            } else if old(buffer).spec_pos() + record_wire(self@).len() > BUF_LEN {
                r == Result::<(), Error>::Err(Error::PacketBufferOver512) && final(buffer)@ == old(
                    buffer,
                )@ && final(buffer).spec_pos() == old(buffer).spec_pos()
            } else {
                r is Ok && final(buffer)@ == splice(
                    old(buffer)@,
                    old(buffer).spec_pos(),
                    record_wire(self@),
                ) && final(buffer).spec_pos() == old(buffer).spec_pos() + record_wire(
                    self@,
                ).len()
            },
    {
        let ghost orig = buffer@;
        let ghost p0 = buffer.spec_pos();
        match self {
            Record::Unknown { .. } => {
                proof {
                    crate::buffer::lemma_splice_empty(orig, p0);
                }
                Ok(())
            },
            Record::A { preamble, addr } => {
                if !labels_valid(preamble.name.as_slice()) {
                    return Err(Error::LabelLengthOver63);
                }
                proof {
                    lemma_name_wire_len(preamble.name@);
                }
                if preamble.name.len() > BUF_LEN || buffer.pos() + preamble.name.len() + 16
                    > BUF_LEN {
                    return Err(Error::PacketBufferOver512);
                }
                write_preamble(buffer, preamble.name.as_slice(), 1, preamble.ttl, 4)?;
                let ghost pw = preamble_wire(preamble.name@, 1, preamble.ttl, 4);
                buffer.write_u8(addr.octets[0])?;
                buffer.write_u8(addr.octets[1])?;
                buffer.write_u8(addr.octets[2])?;
                buffer.write_u8(addr.octets[3])?;
                proof {
                    crate::buffer::lemma_splice_concat(orig, p0, pw, seq![addr.octets[0]]);
                    crate::buffer::lemma_splice_concat(
                        orig,
                        p0,
                        pw + seq![addr.octets[0]],
                        seq![addr.octets[1]],
                    );
                    crate::buffer::lemma_splice_concat(
                        orig,
                        p0,
                        pw + seq![addr.octets[0]] + seq![addr.octets[1]],
                        seq![addr.octets[2]],
                    );
                    crate::buffer::lemma_splice_concat(
                        orig,
                        p0,
                        pw + seq![addr.octets[0]] + seq![addr.octets[1]] + seq![addr.octets[2]],
                        seq![addr.octets[3]],
                    );
                    assert(pw + seq![addr.octets[0]] + seq![addr.octets[1]] + seq![addr.octets[2]]
                        + seq![addr.octets[3]] =~= record_wire(self@));
                }
                Ok(())
            },
            Record::NS { preamble, host } => {
                write_host_record(buffer, preamble.name.as_slice(), 2, preamble.ttl, host.as_slice())
            },
            Record::CNAME { preamble, host } => {
                write_host_record(buffer, preamble.name.as_slice(), 5, preamble.ttl, host.as_slice())
            },
            Record::MX { preamble, preference, exchange } => {
                if !labels_valid(preamble.name.as_slice()) || !labels_valid(exchange.as_slice()) {
                    return Err(Error::LabelLengthOver63);
                }
                proof {
                    lemma_name_wire_len(preamble.name@);
                    lemma_name_wire_len(exchange@);
                }
                if preamble.name.len() > BUF_LEN || exchange.len() > BUF_LEN || buffer.pos()
                    + preamble.name.len() + 16 + exchange.len() > BUF_LEN {
                    return Err(Error::PacketBufferOver512);
                }
                write_preamble(buffer, preamble.name.as_slice(), 15, preamble.ttl, 0)?;
                let ghost pw0 = preamble_wire(preamble.name@, 15, preamble.ttl, 0);
                let pos0 = buffer.pos() - 2;
                buffer.write_u16(*preference)?;
                proof {
                    crate::buffer::lemma_splice_concat(orig, p0, pw0, u16_be(*preference));
                }
                buffer.write_qname(exchange.as_slice())?;
                proof {
                    crate::buffer::lemma_splice_concat(
                        orig,
                        p0,
                        pw0 + u16_be(*preference),
                        name_wire(exchange@),
                    );
                }
                let size = buffer.pos() - pos0 - 2;
                buffer.set_u16(pos0, size as u16)?;
                proof {
                    let w = pw0 + u16_be(*preference) + name_wire(exchange@);
                    let k = preamble.name@.len() + 10;
                    crate::buffer::lemma_splice_patch(orig, p0, w, k as int, u16_be(size as u16));
                    assert(w.subrange(0, k as int) + u16_be(size as u16) + w.subrange(
                        k + 2 as int,
                        w.len() as int,
                    ) =~= record_wire(self@));
                }
                Ok(())
            },
            Record::AAAA { preamble, addr } => {
                if !labels_valid(preamble.name.as_slice()) {
                    return Err(Error::LabelLengthOver63);
                }
                proof {
                    lemma_name_wire_len(preamble.name@);
                }
                if preamble.name.len() > BUF_LEN || buffer.pos() + preamble.name.len() + 28
                    > BUF_LEN {
                    return Err(Error::PacketBufferOver512);
                }
                write_preamble(buffer, preamble.name.as_slice(), 28, preamble.ttl, 16)?;
                let ghost pw = preamble_wire(preamble.name@, 28, preamble.ttl, 16);
                let s = addr.segments;
                buffer.write_u16(s[0])?;
                proof {
                    crate::buffer::lemma_splice_concat(orig, p0, pw, u16_be(s@[0]));
                }
                buffer.write_u16(s[1])?;
                proof {
                    crate::buffer::lemma_splice_concat(orig, p0, pw + u16_be(s@[0]), u16_be(s@[1]));
                }
                buffer.write_u16(s[2])?;
                proof {
                    crate::buffer::lemma_splice_concat(
                        orig,
                        p0,
                        pw + u16_be(s@[0]) + u16_be(s@[1]),
                        u16_be(s@[2]),
                    );
                }
                buffer.write_u16(s[3])?;
                proof {
                    crate::buffer::lemma_splice_concat(
                        orig,
                        p0,
                        pw + u16_be(s@[0]) + u16_be(s@[1]) + u16_be(s@[2]),
                        u16_be(s@[3]),
                    );
                }
                buffer.write_u16(s[4])?;
                proof {
                    crate::buffer::lemma_splice_concat(
                        orig,
                        p0,
                        pw + u16_be(s@[0]) + u16_be(s@[1]) + u16_be(s@[2]) + u16_be(s@[3]),
                        u16_be(s@[4]),
                    );
                }
                buffer.write_u16(s[5])?;
                proof {
                    crate::buffer::lemma_splice_concat(
                        orig,
                        p0,
                        pw + u16_be(s@[0]) + u16_be(s@[1]) + u16_be(s@[2]) + u16_be(s@[3]) + u16_be(
                            s@[4],
                        ),
                        u16_be(s@[5]),
                    );
                }
                buffer.write_u16(s[6])?;
                proof {
                    crate::buffer::lemma_splice_concat(
                        orig,
                        p0,
                        pw + u16_be(s@[0]) + u16_be(s@[1]) + u16_be(s@[2]) + u16_be(s@[3]) + u16_be(
                            s@[4],
                        ) + u16_be(s@[5]),
                        u16_be(s@[6]),
                    );
                }
                buffer.write_u16(s[7])?;
                proof {
                    crate::buffer::lemma_splice_concat(
                        orig,
                        p0,
                        pw + u16_be(s@[0]) + u16_be(s@[1]) + u16_be(s@[2]) + u16_be(s@[3]) + u16_be(
                            s@[4],
                        ) + u16_be(s@[5]) + u16_be(s@[6]),
                        u16_be(s@[7]),
                    );
                    assert(pw + u16_be(s@[0]) + u16_be(s@[1]) + u16_be(s@[2]) + u16_be(s@[3])
                        + u16_be(s@[4]) + u16_be(s@[5]) + u16_be(s@[6]) + u16_be(s@[7])
                        =~= record_wire(self@));
                }
                Ok(())
            },
        }
    }
}

/// Writes a record whose RDATA is one domain name (NS or CNAME): the
/// preamble with a placeholder length, the host name, then the back-patch
/// of the length field with what was actually written.
fn write_host_record(
    buffer: &mut PacketBuffer,
    name: &[u8],
    tnum: u16,
    ttl: u32,
    host: &[u8],
) -> (r: Result<(), Error>)
    requires
        old(buffer).wf(),
        tnum == 2 || tnum == 5,
    ensures
        final(buffer).wf(),
        ({
            let wire = preamble_wire(name@, tnum, ttl, (host@.len() + 2) as u16) + name_wire(
                host@,
            );
            if !(name_valid(name@) && name_valid(host@)) {
                r == Result::<(), Error>::Err(Error::LabelLengthOver63) && final(buffer)@ == old(
                    buffer,
                )@ && final(buffer).spec_pos() == old(buffer).spec_pos()
            } else if old(buffer).spec_pos() + wire.len() > BUF_LEN {
                r == Result::<(), Error>::Err(Error::PacketBufferOver512) && final(buffer)@ == old(
                    buffer,
                )@ && final(buffer).spec_pos() == old(buffer).spec_pos()
            } else {
                r is Ok && final(buffer)@ == splice(old(buffer)@, old(buffer).spec_pos(), wire)
                    && final(buffer).spec_pos() == old(buffer).spec_pos() + wire.len()
            }
        }),
{
    if !labels_valid(name) || !labels_valid(host) {
        return Err(Error::LabelLengthOver63);
    }
    proof {
        lemma_name_wire_len(name@);
        lemma_name_wire_len(host@);
    }
    if name.len() > BUF_LEN || host.len() > BUF_LEN || buffer.pos() + name.len() + 14 + host.len()
        > BUF_LEN {
        return Err(Error::PacketBufferOver512);
    }
    let ghost orig = buffer@;
    let ghost p0 = buffer.spec_pos();
    write_preamble(buffer, name, tnum, ttl, 0)?;
    let ghost pw0 = preamble_wire(name@, tnum, ttl, 0);
    let pos0 = buffer.pos() - 2;
    buffer.write_qname(host)?;
    proof {
        crate::buffer::lemma_splice_concat(orig, p0, pw0, name_wire(host@));
    }
    let size = buffer.pos() - pos0 - 2;
    buffer.set_u16(pos0, size as u16)?;
    proof {
        let w = pw0 + name_wire(host@);
        let k = name@.len() + 10;
        crate::buffer::lemma_splice_patch(orig, p0, w, k as int, u16_be(size as u16));
        assert(w.subrange(0, k as int) + u16_be(size as u16) + w.subrange(k + 2 as int, w.len() as int)
            =~= preamble_wire(name@, tnum, ttl, (host@.len() + 2) as u16) + name_wire(host@));
    }
    Ok(())
}

/// What decoding the RDATA of a record whose preamble is `pre` yields,
/// starting at `p2`, and where it leaves the cursor.  Every interpreted
/// variant must advance the cursor by exactly the announced length, else
/// the record is refused.
pub open spec fn rdata_at(bytes: Seq<u8>, p2: int, pre: PreambleV) -> (Result<RecordV, Error>, int) {
    match pre.record_type {
        RecordType::A => {
            if p2 + 4 > BUF_LEN {
                (Result::Err(Error::PacketBufferOver512), p2)
            } else if pre.len != 4 {
                (Result::Err(Error::PacketBufferInvalidPosition), p2 + 4)
            } else {
                (
                    Result::Ok(RecordV::A { preamble: pre, addr: bytes.subrange(p2, p2 + 4) }),
                    p2 + 4,
                )
            }
        },
        RecordType::NS => {
            let scan = scan_name(bytes, p2, 0, false, p2);
            match scan.0 {
                Result::Err(e) => (Result::Err(e), scan.1),
                Result::Ok(h) => {
                    if scan.1 - p2 != pre.len {
                        (Result::Err(Error::PacketBufferInvalidPosition), scan.1)
                    } else {
                        (Result::Ok(RecordV::NS { preamble: pre, host: h }), scan.1)
                    }
                },
            }
        },
        RecordType::CNAME => {
            let scan = scan_name(bytes, p2, 0, false, p2);
            match scan.0 {
                Result::Err(e) => (Result::Err(e), scan.1),
                Result::Ok(h) => {
                    if scan.1 - p2 != pre.len {
                        (Result::Err(Error::PacketBufferInvalidPosition), scan.1)
                    } else {
                        (Result::Ok(RecordV::CNAME { preamble: pre, host: h }), scan.1)
                    }
                },
            }
        },
        RecordType::MX => {
            if p2 + 2 > BUF_LEN {
                (Result::Err(Error::PacketBufferOver512), p2)
            } else {
                let pref = be16(bytes[p2], bytes[p2 + 1]);
                let scan = scan_name(bytes, p2 + 2, 0, false, p2 + 2);
                match scan.0 {
                    Result::Err(e) => (Result::Err(e), scan.1),
                    Result::Ok(x) => {
                        if scan.1 - p2 != pre.len {
                            (Result::Err(Error::PacketBufferInvalidPosition), scan.1)
                        } else {
                            (
                                Result::Ok(
                                    RecordV::MX { preamble: pre, preference: pref, exchange: x },
                                ),
                                scan.1,
                            )
                        }
                    },
                }
            }
        },
        RecordType::AAAA => {
            if p2 + 16 > BUF_LEN {
                (Result::Err(Error::PacketBufferOver512), p2)
            } else if pre.len != 16 {
                (Result::Err(Error::PacketBufferInvalidPosition), p2 + 16)
            } else {
                (
                    Result::Ok(
                        RecordV::AAAA {
                            preamble: pre,
                            addr: Seq::new(
                                8,
                                |i: int| be16(bytes[p2 + 2 * i], bytes[p2 + 2 * i + 1]),
                            ),
                        },
                    ),
                    p2 + 16,
                )
            }
        },
        RecordType::Unknown(_) => {
            if p2 + pre.len > BUF_LEN {
                (Result::Err(Error::PacketBufferOver512), p2)
            } else {
                (Result::Ok(RecordV::Unknown { preamble: pre }), p2 + pre.len)
            }
        },
    }
}

/// What decoding a whole record starting at `p` yields, and where it
/// leaves the cursor: the preamble octet by octet, then the RDATA.
pub open spec fn record_at(bytes: Seq<u8>, p: int) -> (Result<RecordV, Error>, int) {
    let scan = scan_name(bytes, p, 0, false, p);
    let p1 = scan.1;
    match scan.0 {
        Result::Err(e) => (Result::Err(e), p1),
        Result::Ok(nm) => {
            if p1 + 2 > BUF_LEN {
                (Result::Err(Error::PacketBufferOver512), p1)
            } else if p1 + 4 > BUF_LEN {
                (Result::Err(Error::PacketBufferOver512), p1 + 2)
            } else if p1 + 8 > BUF_LEN {
                (Result::Err(Error::PacketBufferOver512), p1 + 4)
            } else if p1 + 10 > BUF_LEN {
                (Result::Err(Error::PacketBufferOver512), p1 + 8)
            } else {
                let tnum = be16(bytes[p1], bytes[p1 + 1]);
                let pre = PreambleV {
                    name: nm,
                    record_type: RecordType::spec_from_num(tnum),
                    class: be16(bytes[p1 + 2], bytes[p1 + 3]),
                    ttl: be32(bytes[p1 + 4], bytes[p1 + 5], bytes[p1 + 6], bytes[p1 + 7]),
                    len: be16(bytes[p1 + 8], bytes[p1 + 9]),
                };
                rdata_at(bytes, p1 + 10, pre)
            }
        },
    }
}

impl Record {
    /// Decodes one record at the cursor: the preamble, then the RDATA the
    /// type code announces.  On success the cursor has advanced past the
    /// preamble by exactly the announced RDATA length, whatever the
    /// variant; a record whose payload does not span that length exactly
    /// is refused.
    pub fn read(buffer: &mut PacketBuffer) -> (r: Result<Record, Error>)
        requires
            old(buffer).wf(),
        ensures
            final(buffer).wf(),
            final(buffer)@ == old(buffer)@,
            ({
                let (res, endp) = record_at(old(buffer)@, old(buffer).spec_pos());
                final(buffer).spec_pos() == endp && match r {
                    Ok(rec) => res == Result::<RecordV, Error>::Ok(rec@),
                    Err(e) => res == Result::<RecordV, Error>::Err(e),
                }
            }),
    {
        let ghost bs = buffer@;
        let name = buffer.read_qname()?;
        let tnum = buffer.read_u16()?;
        let class = buffer.read_u16()?;
        let ttl = buffer.read_u32()?;
        let len = buffer.read_u16()?;
        let record_type = RecordType::from_num(tnum);
        let preamble = RecordPreamble { name, record_type, class, ttl, len };
        let rdata_start = buffer.pos();

        match record_type {
            RecordType::A => {
                if rdata_start + 4 > BUF_LEN {
                    return Err(Error::PacketBufferOver512);
                }
                let o0 = buffer.read_u8()?;
                let o1 = buffer.read_u8()?;
                let o2 = buffer.read_u8()?;
                let o3 = buffer.read_u8()?;
                if len != 4 {
                    return Err(Error::PacketBufferInvalidPosition);
                }
                let addr = Ipv4::new(o0, o1, o2, o3);
                proof {
                    assert(addr.octets@ =~= bs.subrange(rdata_start as int, rdata_start + 4));
                }
                Ok(Record::A { preamble, addr })
            },
            RecordType::NS => {
                let host = buffer.read_qname()?;
                proof {
                    lemma_scan_end(bs, rdata_start as int, 0, false, rdata_start as int);
                }
                if buffer.pos() - rdata_start != len as usize {
                    return Err(Error::PacketBufferInvalidPosition);
                }
                Ok(Record::NS { preamble, host })
            },
            RecordType::CNAME => {
                let host = buffer.read_qname()?;
                proof {
                    lemma_scan_end(bs, rdata_start as int, 0, false, rdata_start as int);
                }
                if buffer.pos() - rdata_start != len as usize {
                    return Err(Error::PacketBufferInvalidPosition);
                }
                Ok(Record::CNAME { preamble, host })
            },
            RecordType::MX => {
                let preference = buffer.read_u16()?;
                let exchange = buffer.read_qname()?;
                proof {
                    lemma_scan_end(
                        bs,
                        rdata_start + 2 as int,
                        0,
                        false,
                        rdata_start + 2 as int,
                    );
                }
                if buffer.pos() - rdata_start != len as usize {
                    return Err(Error::PacketBufferInvalidPosition);
                }
                Ok(Record::MX { preamble, preference, exchange })
            },
            RecordType::AAAA => {
                if rdata_start + 16 > BUF_LEN {
                    return Err(Error::PacketBufferOver512);
                }
                let s0 = buffer.read_u16()?;
                let s1 = buffer.read_u16()?;
                let s2 = buffer.read_u16()?;
                let s3 = buffer.read_u16()?;
                let s4 = buffer.read_u16()?;
                let s5 = buffer.read_u16()?;
                let s6 = buffer.read_u16()?;
                let s7 = buffer.read_u16()?;
                if len != 16 {
                    return Err(Error::PacketBufferInvalidPosition);
                }
                let addr = Ipv6::new([s0, s1, s2, s3, s4, s5, s6, s7]);
                proof {
                    let p2 = rdata_start as int;
                    assert(addr.segments@ =~= Seq::new(
                        8,
                        |i: int| be16(bs[p2 + 2 * i], bs[p2 + 2 * i + 1]),
                    ));
                }
                Ok(Record::AAAA { preamble, addr })
            },
            RecordType::Unknown(_) => {
                buffer.step(len as usize)?;
                Ok(Record::Unknown { preamble })
            },
        }
    }
}

/// Whether every name a record would write has well-formed labels.
pub open spec fn record_names_valid(r: RecordV) -> bool {
    match r {
        RecordV::Unknown { .. } => true,
        RecordV::A { preamble, .. } => name_valid(preamble.name),
        RecordV::NS { preamble, host } => name_valid(preamble.name) && name_valid(host),
        RecordV::CNAME { preamble, host } => name_valid(preamble.name) && name_valid(host),
        RecordV::MX { preamble, exchange, .. } => name_valid(preamble.name) && name_valid(
            exchange,
        ),
        RecordV::AAAA { preamble, .. } => name_valid(preamble.name),
    }
}

} // verus!
