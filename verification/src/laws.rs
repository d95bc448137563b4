//! The laws of the codec: what encoding and decoding promise together.
//!
//! Each proof here is stated over the same spec functions the codec's
//! contracts use, so it applies to what the executable functions really
//! read and write.

use vstd::prelude::*;

use crate::buffer::{be16, splice, u16_be, BUF_LEN};
use crate::codes::Error;
use crate::name::{
    first_dot, join_name, lemma_first_dot, lemma_name_wire_len, lower, lower_byte, name_plain,
    name_valid, name_wire, scan_name, DOT, MAX_JUMPS, NAME_BUF_LEN,
};
use crate::header::{header_from_bytes, header_wire, lemma_header_decode_encode};
use crate::packet::{
    packet_at, packet_wire, questions_at, questions_wire, records_at, records_wire, PacketV,
};
use crate::question::{question_at, question_wire, QuestionV};
use crate::record::{
    preamble_wire, record_at, record_wire, rv_preamble, PreambleV, RecordType, RecordV,
};

verus! {

/// Law: an uncompressed name decodes from its own wire form to its
/// lowercase, and the decoder consumes exactly that wire form.  Holds for
/// any jump budget not yet exhausted, since no pointer is followed.
pub proof fn lemma_name_scan_wire(bytes: Seq<u8>, p: int, name: Seq<u8>, jumps: int, cur: int)
    requires
        bytes.len() == NAME_BUF_LEN,
        name_valid(name),
        name_plain(name),
        0 <= p,
        p + name.len() + 2 < NAME_BUF_LEN,
        bytes.subrange(p, p + name.len() + 2) == name_wire(name),
        0 <= jumps < MAX_JUMPS,
    ensures
        scan_name(bytes, p, jumps, false, cur) == (
            Result::<Seq<u8>, Error>::Ok(lower(name)),
            p + name.len() + 2,
        ),
    decreases name.len(),
{
    lemma_first_dot(name);
    lemma_name_wire_len(name);
    let k = first_dot(name) as int;
    let w = name_wire(name);
    let sub = bytes.subrange(p, p + name.len() + 2);
    assert(forall|j: int| 0 <= j < name.len() + 2 ==> bytes[p + j] == #[trigger] w[j]) by {
        assert(forall|j: int|
            0 <= j < name.len() + 2 ==> #[trigger] sub[j] == w[j] && sub[j] == bytes[p + j]);
    }
    if k >= name.len() {
        // A single label, then the closing zero.
        let head = seq![name.len() as u8];
        assert(w == head + name + seq![0u8]);
        assert((head + name).len() == 1 + name.len());
        assert(w[0] == (head + name)[0] && (head + name)[0] == head[0]);
        assert(bytes[p] == name.len() as u8);
        assert(1 <= bytes[p] <= 62);
        assert(forall|j: int|
            0 <= j < name.len() ==> #[trigger] w[1 + j] == (head + name)[1 + j] && (head
                + name)[1 + j] == name[j]);
        assert forall|j: int| 0 <= j < name.len() implies bytes.subrange(
            p + 1,
            p + 1 + name.len() as int,
        )[j] == name[j] by {
            assert(bytes[p + 1 + j] == w[1 + j]);
            assert(w[1 + j] == name[j]);
        }
        assert(bytes.subrange(p + 1, p + 1 + name.len() as int) =~= name);
        assert(w[1 + name.len() as int] == 0u8);
        assert(bytes[p + 1 + name.len()] == 0u8);
        let label = lower(bytes.subrange(p + 1, p + 1 + (bytes[p] as int)));
        assert(scan_name(bytes, p + 1 + name.len(), jumps, false, cur) == (
            Result::<Seq<u8>, Error>::Ok(Seq::<u8>::empty()),
            p + name.len() + 2,
        ));
        assert(join_name(label, Seq::<u8>::empty()) == label);
        assert(label =~= lower(name));
    } else {
        // The first label, then the rest of the name.
        let rest = name.subrange(k + 1, name.len() as int);
        lemma_name_wire_len(rest);
        let head = seq![k as u8];
        let lab = name.subrange(0, k);
        assert(w == head + lab + name_wire(rest));
        assert((head + lab).len() == 1 + k);
        assert(w[0] == (head + lab)[0] && (head + lab)[0] == head[0]);
        assert(bytes[p] == k as u8);
        assert(1 <= bytes[p] <= 62);
        assert(forall|j: int|
            0 <= j < k ==> #[trigger] w[1 + j] == (head + lab)[1 + j] && (head + lab)[1 + j]
                == lab[j]);
        assert forall|j: int| 0 <= j < k implies bytes.subrange(p + 1, p + 1 + k)[j] == lab[j] by {
            assert(bytes[p + 1 + j] == w[1 + j]);
            assert(w[1 + j] == lab[j]);
        }
        assert(bytes.subrange(p + 1, p + 1 + k) =~= lab);
        assert(forall|j: int|
            0 <= j < rest.len() + 2 ==> #[trigger] w[1 + k + j] == name_wire(rest)[j]);
        assert forall|j: int| 0 <= j < rest.len() + 2 implies bytes.subrange(
            p + 1 + k,
            p + 1 + k + rest.len() + 2,
        )[j] == name_wire(rest)[j] by {
            assert(bytes[p + 1 + k + j] == w[1 + k + j]);
            assert(w[1 + k + j] == name_wire(rest)[j]);
        }
        assert(bytes.subrange(p + 1 + k, p + 1 + k + rest.len() + 2) =~= name_wire(rest));
        lemma_name_scan_wire(bytes, p + 1 + k, rest, jumps, cur);
        // Joining the lowered label and the lowered rest lowers the name.
        let label = lower(bytes.subrange(p + 1, p + 1 + (bytes[p] as int)));
        assert(label =~= lower(lab));
        assert(name_plain(rest));
        assert(rest.len() >= 1) by {
            lemma_first_dot(rest);
        }
        assert(lower(rest).len() == rest.len());
        assert(label.len() == k >= 1);
        assert(name[k] == DOT && lower_byte(DOT) == DOT);
        assert(join_name(label, lower(rest)) =~= lower(name));
        assert(scan_name(bytes, p, jumps, false, cur).0 == Result::<Seq<u8>, Error>::Ok(
            join_name(label, lower(rest)),
        ));
        assert(scan_name(bytes, p, jumps, false, cur).1 == p + name.len() + 2);
    }
}

/// Law: writing a well-formed name and reading it back from the same
/// position yields the lowercased name, with the cursor just past its
/// wire form.  This composes `write_qname`'s splice with `read_qname`'s
/// scan.
pub proof fn lemma_name_round_trip(buf: Seq<u8>, p: int, name: Seq<u8>)
    requires
        buf.len() == BUF_LEN,
        name_valid(name),
        name_plain(name),
        0 <= p,
        p + name.len() + 2 < BUF_LEN,
    ensures
        scan_name(splice(buf, p, name_wire(name)), p, 0, false, p) == (
            Result::<Seq<u8>, Error>::Ok(lower(name)),
            p + name.len() + 2,
        ),
{
    lemma_name_wire_len(name);
    let written = splice(buf, p, name_wire(name));
    assert(written.subrange(p, p + name.len() + 2) =~= name_wire(name));
    lemma_name_scan_wire(written, p, name, 0, p);
}

/// Law: decoding a name reads nothing past octet 511.  Two buffers that
/// agree on their first 512 octets decode any name identically - position,
/// pointers, errors and all - whatever lies beyond that boundary.
pub proof fn lemma_scan_confined(
    b1: Seq<u8>,
    b2: Seq<u8>,
    p: int,
    jumps: int,
    jumped: bool,
    cur: int,
)
    requires
        b1.len() >= NAME_BUF_LEN,
        b2.len() >= NAME_BUF_LEN,
        forall|j: int| 0 <= j < NAME_BUF_LEN ==> b1[j] == #[trigger] b2[j],
    ensures
        scan_name(b1, p, jumps, jumped, cur) == scan_name(b2, p, jumps, jumped, cur),
    decreases MAX_JUMPS - jumps, (if p <= NAME_BUF_LEN { NAME_BUF_LEN - p } else { 0 }),
{
    if jumps >= MAX_JUMPS || p < 0 || p >= NAME_BUF_LEN {
    } else {
        let len = b1[p];
        assert(b2[p] == len);
        if len >= 192 {
            if !jumped {
                if p + 2 < NAME_BUF_LEN {
                    assert(b2[p + 1] == b1[p + 1]);
                    lemma_scan_confined(b1, b2, (len - 192) * 256 + b1[p + 1], jumps + 1, true, p + 2);
                }
            } else {
                if p + 1 < NAME_BUF_LEN {
                    assert(b2[p + 1] == b1[p + 1]);
                    lemma_scan_confined(b1, b2, (len - 192) * 256 + b1[p + 1], jumps + 1, true, cur);
                }
            }
        } else if len == 0 {
        } else {
            if p + 1 + len <= NAME_BUF_LEN {
                assert(b1.subrange(p + 1, p + 1 + len) =~= b2.subrange(p + 1, p + 1 + len));
                lemma_scan_confined(b1, b2, p + 1 + len, jumps, jumped, cur);
            }
        }
    }
}

/// A chain of `n` compression pointers starting at `p`, each one whole
/// inside the buffer.
pub open spec fn pointer_run(bytes: Seq<u8>, p: int, n: nat) -> bool
    decreases n,
{
    n == 0 || (0 <= p && p + 2 < NAME_BUF_LEN && bytes[p] >= 192 && pointer_run(
        bytes,
        (bytes[p] - 192) * 256 + bytes[p + 1],
        (n - 1) as nat,
    ))
}

/// Law: a scan that still may follow `MAX_JUMPS - jumps` pointers fails
/// with `MaxJumpsAttained` on a chain at least that long.
pub proof fn lemma_scan_max_jumps(bytes: Seq<u8>, p: int, jumps: int, jumped: bool, cur: int)
    requires
        0 <= jumps <= MAX_JUMPS,
        pointer_run(bytes, p, (MAX_JUMPS - jumps) as nat),
    ensures
        scan_name(bytes, p, jumps, jumped, cur).0 == Result::<Seq<u8>, Error>::Err(
            Error::MaxJumpsAttained,
        ),
    decreases MAX_JUMPS - jumps,
{
    if jumps < MAX_JUMPS {
        lemma_scan_max_jumps(
            bytes,
            (bytes[p] - 192) * 256 + bytes[p + 1],
            jumps + 1,
            true,
            if jumped {
                cur
            } else {
                p + 2
            },
        );
    }
}

/// Law: decoding a name whose start chains through five or more pointers
/// yields `MaxJumpsAttained`.
pub proof fn lemma_max_jumps(bytes: Seq<u8>, p: int)
    requires
        pointer_run(bytes, p, MAX_JUMPS as nat),
    ensures
        scan_name(bytes, p, 0, false, p).0 == Result::<Seq<u8>, Error>::Err(
            Error::MaxJumpsAttained,
        ),
{
    lemma_scan_max_jumps(bytes, p, 0, false, p);
}

/// A name fit to round-trip: well-formed labels of at least one octet,
/// already lowercase.
pub open spec fn name_canonical(n: Seq<u8>) -> bool {
    name_valid(n) && name_plain(n) && lower(n) == n
}

/// A record type that re-decodes from its own code: every interpreted
/// type, and any `Unknown` whose code is not an interpreted one.
pub open spec fn rt_canonical(t: RecordType) -> bool {
    RecordType::spec_from_num(t.spec_to_num()) == t
}

/// Octets of `w` found at offset `p` of `bytes` are found slice for slice.
proof fn lemma_bytes_at(bytes: Seq<u8>, p: int, w: Seq<u8>, off: int, part: Seq<u8>)
    requires
        0 <= p,
        p + w.len() <= bytes.len(),
        bytes.subrange(p, p + w.len()) == w,
        0 <= off,
        off + part.len() <= w.len(),
        part == w.subrange(off, off + part.len()),
    ensures
        bytes.subrange(p + off, p + off + part.len()) == part,
        forall|j: int| 0 <= j < part.len() ==> bytes[p + off + j] == #[trigger] part[j],
{
    let sub = bytes.subrange(p, p + w.len());
    assert forall|j: int| 0 <= j < part.len() implies bytes[p + off + j] == #[trigger] part[j] by {
        assert(sub[off + j] == bytes[p + off + j]);
        assert(w.subrange(off, off + part.len())[j] == w[off + j]);
    }
    assert(bytes.subrange(p + off, p + off + part.len()) =~= part);
}

/// Law: the question codec round-trips.  A question whose name is fit to
/// round-trip and whose type survives its code decodes from its own wire
/// form, and the decoder consumes exactly that wire form.
pub proof fn lemma_question_round_trip(bytes: Seq<u8>, p: int, q: QuestionV)
    requires
        bytes.len() == BUF_LEN,
        name_canonical(q.name),
        rt_canonical(q.question_type),
        0 <= p,
        p + q.name.len() + 6 <= BUF_LEN,
        bytes.subrange(p, p + q.name.len() + 6) == question_wire(q),
    ensures
        question_at(bytes, p) == (Result::<QuestionV, Error>::Ok(q), p + q.name.len() + 6),
{
    lemma_name_wire_len(q.name);
    let w = question_wire(q);
    let nl = q.name.len() as int;
    assert(w.len() == nl + 6);
    let tw = u16_be(q.question_type.spec_to_num());
    let cw = u16_be(q.class);
    assert(w == name_wire(q.name) + tw + cw);
    assert(w.subrange(0, nl + 2) =~= name_wire(q.name));
    lemma_bytes_at(bytes, p, w, 0, name_wire(q.name));
    assert(bytes.subrange(p, p + nl + 2) == name_wire(q.name));
    lemma_name_scan_wire(bytes, p, q.name, 0, p);
    assert(w.subrange(nl + 2, nl + 4) =~= tw);
    lemma_bytes_at(bytes, p, w, nl + 2, tw);
    assert(w.subrange(nl + 4, nl + 6) =~= cw);
    lemma_bytes_at(bytes, p, w, nl + 4, cw);
    let p1 = p + nl + 2;
    assert(bytes[p1] == tw[0] && bytes[p1 + 1] == tw[1]);
    assert(be16(tw[0], tw[1]) == q.question_type.spec_to_num());
    assert(bytes[p1 + 2] == cw[0] && bytes[p1 + 3] == cw[1]);
    assert(be16(cw[0], cw[1]) == q.class);
    assert(question_at(bytes, p).0 == Result::<QuestionV, Error>::Ok(
        QuestionV { name: lower(q.name), question_type: q.question_type, class: q.class },
    ));
}

/// Decoding the preamble octets written for a record yields its fields
/// back, and the octets after them are exactly `wtail`.
proof fn lemma_preamble_scan(
    bytes: Seq<u8>,
    p: int,
    name: Seq<u8>,
    tnum: u16,
    ttl: u32,
    rdlen: u16,
    wtail: Seq<u8>,
)
    requires
        bytes.len() == BUF_LEN,
        name_canonical(name),
        0 <= p,
        p + name.len() + 12 + wtail.len() <= BUF_LEN,
        bytes.subrange(p, p + name.len() + 12 + wtail.len()) == preamble_wire(
            name,
            tnum,
            ttl,
            rdlen,
        ) + wtail,
    ensures
        scan_name(bytes, p, 0, false, p) == (
            Result::<Seq<u8>, Error>::Ok(name),
            p + name.len() + 2,
        ),
        be16(bytes[p + name.len() + 2], bytes[p + name.len() + 3]) == tnum,
        be16(bytes[p + name.len() + 4], bytes[p + name.len() + 5]) == 1,
        crate::buffer::be32(
            bytes[p + name.len() + 6],
            bytes[p + name.len() + 7],
            bytes[p + name.len() + 8],
            bytes[p + name.len() + 9],
        ) == ttl,
        be16(bytes[p + name.len() + 10], bytes[p + name.len() + 11]) == rdlen,
        bytes.subrange(p + name.len() + 12, p + name.len() + 12 + wtail.len()) == wtail,
        forall|j: int| 0 <= j < wtail.len() ==> bytes[p + name.len() + 12 + j] == #[trigger] wtail[j],
{
    lemma_name_wire_len(name);
    let nl = name.len() as int;
    let w = preamble_wire(name, tnum, ttl, rdlen) + wtail;
    let tw = u16_be(tnum);
    let cw = u16_be(1u16);
    let lw = crate::buffer::u32_be(ttl);
    let rw = u16_be(rdlen);
    assert(w == name_wire(name) + tw + cw + lw + rw + wtail);
    assert(w.subrange(0, nl + 2) =~= name_wire(name));
    lemma_bytes_at(bytes, p, w, 0, name_wire(name));
    lemma_name_scan_wire(bytes, p, name, 0, p);
    assert(w.subrange(nl + 2, nl + 4) =~= tw);
    lemma_bytes_at(bytes, p, w, nl + 2, tw);
    assert(w.subrange(nl + 4, nl + 6) =~= cw);
    lemma_bytes_at(bytes, p, w, nl + 4, cw);
    assert(w.subrange(nl + 6, nl + 10) =~= lw);
    lemma_bytes_at(bytes, p, w, nl + 6, lw);
    assert(w.subrange(nl + 10, nl + 12) =~= rw);
    lemma_bytes_at(bytes, p, w, nl + 10, rw);
    assert(w.subrange(nl + 12, nl + 12 + wtail.len() as int) =~= wtail);
    lemma_bytes_at(bytes, p, w, nl + 12, wtail);
    assert(be16(tw[0], tw[1]) == tnum);
    assert(be16(cw[0], cw[1]) == 1);
    assert(crate::buffer::be32(lw[0], lw[1], lw[2], lw[3]) == ttl);
    assert(be16(rw[0], rw[1]) == rdlen);
}

/// A record fit to round-trip: an interpreted variant whose names are fit
/// to round-trip, whose preamble carries the variant's own type code,
/// class 1, and the length its RDATA really has.
pub open spec fn record_canonical(r: RecordV) -> bool {
    match r {
        RecordV::Unknown { .. } => false,
        RecordV::A { preamble, addr } => name_canonical(preamble.name) && preamble.record_type
            == RecordType::A && preamble.class == 1 && preamble.len == 4 && addr.len() == 4,
        RecordV::NS { preamble, host } => name_canonical(preamble.name) && name_canonical(host)
            && preamble.record_type == RecordType::NS && preamble.class == 1 && preamble.len
            == host.len() + 2,
        RecordV::CNAME { preamble, host } => name_canonical(preamble.name) && name_canonical(host)
            && preamble.record_type == RecordType::CNAME && preamble.class == 1 && preamble.len
            == host.len() + 2,
        RecordV::MX { preamble, exchange, .. } => name_canonical(preamble.name) && name_canonical(
            exchange,
        ) && preamble.record_type == RecordType::MX && preamble.class == 1 && preamble.len
            == exchange.len() + 4,
        RecordV::AAAA { preamble, addr } => name_canonical(preamble.name) && preamble.record_type
            == RecordType::AAAA && preamble.class == 1 && preamble.len == 16 && addr.len() == 8,
    }
}

/// One variant of the record round trip: an A record.
proof fn lemma_record_round_trip_a(bytes: Seq<u8>, p: int, r: RecordV)
    requires
        bytes.len() == BUF_LEN,
        record_canonical(r),
        r is A,
        0 <= p,
        p + record_wire(r).len() < BUF_LEN,
        bytes.subrange(p, p + record_wire(r).len()) == record_wire(r),
    ensures
        record_at(bytes, p) == (Result::<RecordV, Error>::Ok(r), p + record_wire(r).len()),
{
    match r {
        RecordV::A { preamble, addr } => {
            lemma_name_wire_len(preamble.name);
            let nl = preamble.name.len() as int;
            lemma_preamble_scan(bytes, p, preamble.name, 1, preamble.ttl, 4, addr);
            let p2 = p + nl + 12;
            assert(bytes.subrange(p2, p2 + 4) == addr);
            assert(record_at(bytes, p).0 == Result::<RecordV, Error>::Ok(
                RecordV::A {
                    preamble: PreambleV {
                        name: preamble.name,
                        record_type: RecordType::A,
                        class: 1,
                        ttl: preamble.ttl,
                        len: 4,
                    },
                    addr: bytes.subrange(p2, p2 + 4),
                },
            ));
        },
        _ => {},
    }
}

/// One variant of the record round trip: an NS record.
proof fn lemma_record_round_trip_ns(bytes: Seq<u8>, p: int, r: RecordV)
    requires
        bytes.len() == BUF_LEN,
        record_canonical(r),
        r is NS,
        0 <= p,
        p + record_wire(r).len() < BUF_LEN,
        bytes.subrange(p, p + record_wire(r).len()) == record_wire(r),
    ensures
        record_at(bytes, p) == (Result::<RecordV, Error>::Ok(r), p + record_wire(r).len()),
{
    match r {
        RecordV::NS { preamble, host } => {
            lemma_name_wire_len(preamble.name);
            lemma_name_wire_len(host);
            let nl = preamble.name.len() as int;
            let rdlen = (host.len() + 2) as u16;
            lemma_preamble_scan(bytes, p, preamble.name, 2, preamble.ttl, rdlen, name_wire(host));
            let p2 = p + nl + 12;
            lemma_name_scan_wire(bytes, p2, host, 0, p2);
            assert(record_at(bytes, p).0 == Result::<RecordV, Error>::Ok(
                RecordV::NS {
                    preamble: PreambleV {
                        name: preamble.name,
                        record_type: RecordType::NS,
                        class: 1,
                        ttl: preamble.ttl,
                        len: rdlen,
                    },
                    host,
                },
            ));
        },
        _ => {},
    }
}

/// One variant of the record round trip: a CNAME record.
proof fn lemma_record_round_trip_cname(bytes: Seq<u8>, p: int, r: RecordV)
    requires
        bytes.len() == BUF_LEN,
        record_canonical(r),
        r is CNAME,
        0 <= p,
        p + record_wire(r).len() < BUF_LEN,
        bytes.subrange(p, p + record_wire(r).len()) == record_wire(r),
    ensures
        record_at(bytes, p) == (Result::<RecordV, Error>::Ok(r), p + record_wire(r).len()),
{
    match r {
        RecordV::CNAME { preamble, host } => {
            lemma_name_wire_len(preamble.name);
            lemma_name_wire_len(host);
            let nl = preamble.name.len() as int;
            let rdlen = (host.len() + 2) as u16;
            lemma_preamble_scan(bytes, p, preamble.name, 5, preamble.ttl, rdlen, name_wire(host));
            let p2 = p + nl + 12;
            lemma_name_scan_wire(bytes, p2, host, 0, p2);
            assert(record_at(bytes, p).0 == Result::<RecordV, Error>::Ok(
                RecordV::CNAME {
                    preamble: PreambleV {
                        name: preamble.name,
                        record_type: RecordType::CNAME,
                        class: 1,
                        ttl: preamble.ttl,
                        len: rdlen,
                    },
                    host,
                },
            ));
        },
        _ => {},
    }
}

/// One variant of the record round trip: an MX record.
proof fn lemma_record_round_trip_mx(bytes: Seq<u8>, p: int, r: RecordV)
    requires
        bytes.len() == BUF_LEN,
        record_canonical(r),
        r is MX,
        0 <= p,
        p + record_wire(r).len() < BUF_LEN,
        bytes.subrange(p, p + record_wire(r).len()) == record_wire(r),
    ensures
        record_at(bytes, p) == (Result::<RecordV, Error>::Ok(r), p + record_wire(r).len()),
{
    match r {
        RecordV::MX { preamble, preference, exchange } => {
            lemma_name_wire_len(preamble.name);
            lemma_name_wire_len(exchange);
            let nl = preamble.name.len() as int;
            let rdlen = (exchange.len() + 4) as u16;
            let pw = u16_be(preference);
            let wtail = pw + name_wire(exchange);
            assert(record_wire(r) =~= preamble_wire(preamble.name, 15, preamble.ttl, rdlen)
                + wtail);
            lemma_preamble_scan(bytes, p, preamble.name, 15, preamble.ttl, rdlen, wtail);
            let p2 = p + nl + 12;
            assert(bytes[p2] == wtail[0] && bytes[p2 + 1] == wtail[1]);
            assert(wtail[0] == pw[0] && wtail[1] == pw[1]);
            assert(be16(bytes[p2], bytes[p2 + 1]) == preference);
            assert(wtail.subrange(2, wtail.len() as int) =~= name_wire(exchange));
            assert forall|j: int| 0 <= j < name_wire(exchange).len() implies bytes.subrange(
                p2 + 2,
                p2 + 2 + name_wire(exchange).len() as int,
            )[j] == name_wire(exchange)[j] by {
                assert(bytes[p2 + 2 + j] == wtail[2 + j]);
                assert(wtail[2 + j] == name_wire(exchange)[j]);
            }
            assert(bytes.subrange(p2 + 2, p2 + 2 + name_wire(exchange).len() as int)
                =~= name_wire(exchange));
            lemma_name_scan_wire(bytes, p2 + 2, exchange, 0, p2 + 2);
            assert(record_at(bytes, p).0 == Result::<RecordV, Error>::Ok(
                RecordV::MX {
                    preamble: PreambleV {
                        name: preamble.name,
                        record_type: RecordType::MX,
                        class: 1,
                        ttl: preamble.ttl,
                        len: rdlen,
                    },
                    preference,
                    exchange,
                },
            ));
        },
        _ => {},
    }
}

/// One variant of the record round trip: an AAAA record.
proof fn lemma_record_round_trip_aaaa(bytes: Seq<u8>, p: int, r: RecordV)
    requires
        bytes.len() == BUF_LEN,
        record_canonical(r),
        r is AAAA,
        0 <= p,
        p + record_wire(r).len() < BUF_LEN,
        bytes.subrange(p, p + record_wire(r).len()) == record_wire(r),
    ensures
        record_at(bytes, p) == (Result::<RecordV, Error>::Ok(r), p + record_wire(r).len()),
{
    match r {
        RecordV::AAAA { preamble, addr } => {
            lemma_name_wire_len(preamble.name);
            let nl = preamble.name.len() as int;
            let s0 = u16_be(addr[0]);
            let s1 = u16_be(addr[1]);
            let s2 = u16_be(addr[2]);
            let s3 = u16_be(addr[3]);
            let s4 = u16_be(addr[4]);
            let s5 = u16_be(addr[5]);
            let s6 = u16_be(addr[6]);
            let s7 = u16_be(addr[7]);
            let wtail = s0 + s1 + s2 + s3 + s4 + s5 + s6 + s7;
            assert(record_wire(r) =~= preamble_wire(preamble.name, 28, preamble.ttl, 16) + wtail);
            lemma_preamble_scan(bytes, p, preamble.name, 28, preamble.ttl, 16, wtail);
            let p2 = p + nl + 12;
            assert(wtail.len() == 16);
            assert(be16(wtail[0], wtail[1]) == addr[0]);
            assert(be16(wtail[2], wtail[3]) == addr[1]);
            assert(be16(wtail[4], wtail[5]) == addr[2]);
            assert(be16(wtail[6], wtail[7]) == addr[3]);
            assert(be16(wtail[8], wtail[9]) == addr[4]);
            assert(be16(wtail[10], wtail[11]) == addr[5]);
            assert(be16(wtail[12], wtail[13]) == addr[6]);
            assert(be16(wtail[14], wtail[15]) == addr[7]);
            let decoded = Seq::new(8, |i: int| be16(bytes[p2 + 2 * i], bytes[p2 + 2 * i + 1]));
            assert(decoded[0] == addr[0] && decoded[1] == addr[1] && decoded[2] == addr[2]
                && decoded[3] == addr[3] && decoded[4] == addr[4] && decoded[5] == addr[5]
                && decoded[6] == addr[6] && decoded[7] == addr[7]);
            assert(decoded =~= addr);
            assert(record_at(bytes, p).0 == Result::<RecordV, Error>::Ok(
                RecordV::AAAA {
                    preamble: PreambleV {
                        name: preamble.name,
                        record_type: RecordType::AAAA,
                        class: 1,
                        ttl: preamble.ttl,
                        len: 16,
                    },
                    addr: decoded,
                },
            ));
        },
        _ => {},
    }
}

/// Law: the record codec round-trips.  A record fit to round-trip decodes
/// from its own wire form, and the decoder consumes exactly that form.
pub proof fn lemma_record_round_trip(bytes: Seq<u8>, p: int, r: RecordV)
    requires
        bytes.len() == BUF_LEN,
        record_canonical(r),
        0 <= p,
        p + record_wire(r).len() < BUF_LEN,
        bytes.subrange(p, p + record_wire(r).len()) == record_wire(r),
    ensures
        record_at(bytes, p) == (Result::<RecordV, Error>::Ok(r), p + record_wire(r).len()),
{
    match r {
        RecordV::Unknown { .. } => {},
        RecordV::A { .. } => lemma_record_round_trip_a(bytes, p, r),
        RecordV::NS { .. } => lemma_record_round_trip_ns(bytes, p, r),
        RecordV::CNAME { .. } => lemma_record_round_trip_cname(bytes, p, r),
        RecordV::MX { .. } => lemma_record_round_trip_mx(bytes, p, r),
        RecordV::AAAA { .. } => lemma_record_round_trip_aaaa(bytes, p, r),
    }
}

/// Law: a run of questions fit to round-trip decodes from its own octets,
/// in order, and the decoder consumes exactly those octets.
#[verifier::rlimit(60)]
proof fn lemma_questions_round_trip(bytes: Seq<u8>, p: int, qs: Seq<QuestionV>)
    requires
        bytes.len() == BUF_LEN,
        forall|i: int|
            0 <= i < qs.len() ==> name_canonical((#[trigger] qs[i]).name) && rt_canonical(
                qs[i].question_type,
            ),
        0 <= p,
        p + questions_wire(qs).len() <= BUF_LEN,
        bytes.subrange(p, p + questions_wire(qs).len()) == questions_wire(qs),
    ensures
        questions_at(bytes, p, qs.len()) == (
            Result::<Seq<QuestionV>, Error>::Ok(qs),
            p + questions_wire(qs).len(),
        ),
    decreases qs.len(),
{
    if qs.len() == 0 {
        assert(questions_wire(qs).len() == 0);
        assert(qs =~= Seq::<QuestionV>::empty());
    } else {
        let q0 = qs[0];
        lemma_name_wire_len(q0.name);
        let w = questions_wire(qs);
        let w0 = question_wire(q0);
        assert(w0.len() == q0.name.len() + 6);
        let rest = qs.drop_first();
        assert(w == w0 + questions_wire(rest));
        assert(w.subrange(0, w0.len() as int) =~= w0);
        lemma_bytes_at(bytes, p, w, 0, w0);
        lemma_question_round_trip(bytes, p, q0);
        assert(w.subrange(w0.len() as int, w.len() as int) =~= questions_wire(rest));
        lemma_bytes_at(bytes, p, w, w0.len() as int, questions_wire(rest));
        assert(forall|i: int| 0 <= i < rest.len() ==> #[trigger] rest[i] == qs[i + 1]);
        lemma_questions_round_trip(bytes, p + w0.len(), rest);
        assert(seq![q0] + rest =~= qs);
    }
}

/// Law: a run of records fit to round-trip decodes from its own octets,
/// in order, and the decoder consumes exactly those octets.
#[verifier::rlimit(60)]
proof fn lemma_records_round_trip(bytes: Seq<u8>, p: int, rs: Seq<RecordV>)
    requires
        bytes.len() == BUF_LEN,
        forall|i: int| 0 <= i < rs.len() ==> record_canonical(#[trigger] rs[i]),
        0 <= p,
        p + records_wire(rs).len() < BUF_LEN,
        bytes.subrange(p, p + records_wire(rs).len()) == records_wire(rs),
    ensures
        records_at(bytes, p, rs.len()) == (
            Result::<Seq<RecordV>, Error>::Ok(rs),
            p + records_wire(rs).len(),
        ),
    decreases rs.len(),
{
    if rs.len() == 0 {
        assert(records_wire(rs).len() == 0);
        assert(rs =~= Seq::<RecordV>::empty());
    } else {
        let r0 = rs[0];
        let w = records_wire(rs);
        let w0 = record_wire(r0);
        let rest = rs.drop_first();
        assert(w == w0 + records_wire(rest));
        assert(w.subrange(0, w0.len() as int) =~= w0);
        lemma_bytes_at(bytes, p, w, 0, w0);
        lemma_record_round_trip(bytes, p, r0);
        assert(w.subrange(w0.len() as int, w.len() as int) =~= records_wire(rest));
        lemma_bytes_at(bytes, p, w, w0.len() as int, records_wire(rest));
        assert(forall|i: int| 0 <= i < rest.len() ==> #[trigger] rest[i] == rs[i + 1]);
        lemma_records_round_trip(bytes, p + w0.len(), rest);
        assert(seq![r0] + rest =~= rs);
    }
}

/// A packet fit to round-trip: a well-formed header whose counts match
/// the four sections, and every entry fit to round-trip itself.
pub open spec fn packet_canonical(pk: PacketV) -> bool {
    &&& pk.header.wf()
    &&& pk.header.question_count == pk.questions.len()
    &&& pk.header.answer_count == pk.answers.len()
    &&& pk.header.authority_count == pk.authorities.len()
    &&& pk.header.additional_count == pk.additionals.len()
    &&& forall|i: int|
        0 <= i < pk.questions.len() ==> name_canonical((#[trigger] pk.questions[i]).name)
            && rt_canonical(pk.questions[i].question_type)
    &&& forall|i: int| 0 <= i < pk.answers.len() ==> record_canonical(#[trigger] pk.answers[i])
    &&& forall|i: int|
        0 <= i < pk.authorities.len() ==> record_canonical(#[trigger] pk.authorities[i])
    &&& forall|i: int|
        0 <= i < pk.additionals.len() ==> record_canonical(#[trigger] pk.additionals[i])
}

/// Law: the packet codec round-trips.  A packet fit to round-trip,
/// serialized into a fresh buffer, parses back to itself: lowercase names
/// come back letter for letter, every section in order, every count as it
/// was.
/// The wire image of a packet, cut at its section boundaries.
proof fn lemma_packet_wire_split(pk: PacketV)
    ensures
        ({
            let w = packet_wire(pk);
            let o1 = 12 + questions_wire(pk.questions).len() as int;
            let o2 = o1 + records_wire(pk.answers).len() as int;
            let o3 = o2 + records_wire(pk.authorities).len() as int;
            let o4 = o3 + records_wire(pk.additionals).len() as int;
            w.len() == o4 && header_wire(pk.header).len() == 12 && w.subrange(0, 12)
                == header_wire(pk.header) && w.subrange(12, o1) == questions_wire(pk.questions)
                && w.subrange(o1, o2) == records_wire(pk.answers) && w.subrange(o2, o3)
                == records_wire(pk.authorities) && w.subrange(o3, o4) == records_wire(
                pk.additionals,
            )
        }),
{
    let w = packet_wire(pk);
    let hw = header_wire(pk.header);
    let qw = questions_wire(pk.questions);
    let aw = records_wire(pk.answers);
    let nw = records_wire(pk.authorities);
    let dw = records_wire(pk.additionals);
    assert(w == hw + qw + aw + nw + dw);
    let o1 = 12 + qw.len() as int;
    let o2 = o1 + aw.len() as int;
    let o3 = o2 + nw.len() as int;
    let o4 = o3 + dw.len() as int;
    assert(w.subrange(0, 12) =~= hw);
    assert(w.subrange(12, o1) =~= qw);
    assert(w.subrange(o1, o2) =~= aw);
    assert(w.subrange(o2, o3) =~= nw);
    assert(w.subrange(o3, o4) =~= dw);
}

#[verifier::rlimit(100)]
pub proof fn lemma_packet_round_trip(buf: Seq<u8>, pk: PacketV)
    requires
        buf.len() == BUF_LEN,
        packet_canonical(pk),
        packet_wire(pk).len() < BUF_LEN,
    ensures
        packet_at(splice(buf, 0, packet_wire(pk))) == Result::<PacketV, Error>::Ok(pk),
{
    let w = packet_wire(pk);
    let bytes = splice(buf, 0, w);
    assert(bytes.len() == BUF_LEN);
    assert(bytes.subrange(0, w.len() as int) =~= w);
    let hw = header_wire(pk.header);
    let qw = questions_wire(pk.questions);
    let aw = records_wire(pk.answers);
    let nw = records_wire(pk.authorities);
    let dw = records_wire(pk.additionals);
    let o1 = 12 + qw.len() as int;
    let o2 = o1 + aw.len() as int;
    let o3 = o2 + nw.len() as int;
    lemma_packet_wire_split(pk);

    lemma_bytes_at(bytes, 0, w, 0, hw);
    lemma_header_decode_encode(pk.header);
    assert(header_from_bytes(bytes) == pk.header);

    lemma_bytes_at(bytes, 0, w, 12, qw);
    lemma_questions_round_trip(bytes, 12, pk.questions);

    lemma_bytes_at(bytes, 0, w, o1, aw);
    lemma_records_round_trip(bytes, o1, pk.answers);

    lemma_bytes_at(bytes, 0, w, o2, nw);
    lemma_records_round_trip(bytes, o2, pk.authorities);

    lemma_bytes_at(bytes, 0, w, o3, dw);
    lemma_records_round_trip(bytes, o3, pk.additionals);
}

/// Law: after a successful record decode the cursor stands exactly
/// `rdlength` octets past the end of the preamble, whatever the variant
/// decoded, `Unknown` included.
pub proof fn lemma_record_cursor(bytes: Seq<u8>, p: int)
    requires
        record_at(bytes, p).0 is Ok,
    ensures
        record_at(bytes, p).1 == scan_name(bytes, p, 0, false, p).1 + 10 + rv_preamble(
            record_at(bytes, p).0->Ok_0,
        ).len,
{
}

} // verus!
