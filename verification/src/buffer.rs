//! The fixed 512-octet packet buffer: bounded reads and writes at one, two
//! and four octet widths, random-access patching, and a forward cursor.

use vstd::prelude::*;

use crate::codes::Error;
use crate::name::{
    join_name, lemma_first_dot, lemma_first_dot_at, lemma_join_assoc, lemma_name_wire_len, lower,
    lower_byte, name_valid, name_wire, scan_name, first_dot, DOT, MAX_JUMPS,
};

verus! {

/// Number of octets in a DNS-over-UDP message buffer.
pub const BUF_LEN: usize = 512;

/// The two big-endian octets of a 16-bit value.
pub open spec fn u16_be(v: u16) -> Seq<u8> {
    seq![(v / 256) as u8, (v % 256) as u8]
}

/// The four big-endian octets of a 32-bit value.
pub open spec fn u32_be(v: u32) -> Seq<u8> {
    seq![
        (v / 0x1000000) as u8,
        ((v / 0x10000) % 256) as u8,
        ((v / 256) % 256) as u8,
        (v % 256) as u8,
    ]
}

/// The 16-bit value two big-endian octets stand for.
pub open spec fn be16(hi: u8, lo: u8) -> u16 {
    ((hi as int) * 256 + (lo as int)) as u16
}

/// The 32-bit value four big-endian octets stand for.
pub open spec fn be32(b0: u8, b1: u8, b2: u8, b3: u8) -> u32 {
    ((b0 as int) * 0x1000000 + (b1 as int) * 0x10000 + (b2 as int) * 256 + (b3 as int)) as u32
}

/// `buf` with the octets starting at `p` replaced by `data`.
pub open spec fn splice(buf: Seq<u8>, p: int, data: Seq<u8>) -> Seq<u8> {
    buf.subrange(0, p) + data + buf.subrange(p + data.len(), buf.len() as int)
}

/// Writing two runs of octets one after the other splices the same as
/// writing their concatenation at once.
pub proof fn lemma_splice_concat(buf: Seq<u8>, p: int, d1: Seq<u8>, d2: Seq<u8>)
    requires
        0 <= p,
        p + d1.len() + d2.len() <= buf.len(),
    ensures
        splice(splice(buf, p, d1), p + d1.len(), d2) == splice(buf, p, d1 + d2),
{
    assert(splice(splice(buf, p, d1), p + d1.len(), d2) =~= splice(buf, p, d1 + d2));
}

/// Patching octets inside a freshly spliced run equals splicing the run
/// with the patch already applied.
pub proof fn lemma_splice_patch(buf: Seq<u8>, p: int, w: Seq<u8>, k: int, d: Seq<u8>)
    requires
        0 <= p,
        p + w.len() <= buf.len(),
        0 <= k,
        k + d.len() <= w.len(),
    ensures
        splice(splice(buf, p, w), p + k, d) == splice(
            buf,
            p,
            w.subrange(0, k) + d + w.subrange(k + d.len(), w.len() as int),
        ),
{
    assert(splice(splice(buf, p, w), p + k, d) =~= splice(
        buf,
        p,
        w.subrange(0, k) + d + w.subrange(k + d.len(), w.len() as int),
    ));
}

/// Splicing nothing changes nothing.
pub proof fn lemma_splice_empty(buf: Seq<u8>, p: int)
    requires
        0 <= p <= buf.len(),
    ensures
        splice(buf, p, Seq::<u8>::empty()) == buf,
{
    assert(splice(buf, p, Seq::<u8>::empty()) =~= buf);
}

/// A 512-octet backing store with a forward cursor.  Every access is
/// bounds-checked: no operation ever touches an octet at or past index 512,
/// and the cursor never leaves `[0, 512]`.
pub struct PacketBuffer {
    bytes: Vec<u8>,
    pos: usize,
}

impl View for PacketBuffer {
    type V = Seq<u8>;

    closed spec fn view(&self) -> Seq<u8> {
        self.bytes@
    }
}

impl PacketBuffer {
    /// The cursor.
    pub closed spec fn spec_pos(&self) -> int {
        self.pos as int
    }

    /// The buffer's invariant: exactly 512 octets, cursor inside `[0, 512]`.
    pub open spec fn wf(&self) -> bool {
        self@.len() == BUF_LEN && 0 <= self.spec_pos() <= BUF_LEN
    }

    /// A zeroed buffer with the cursor at the start.
    pub fn new() -> (b: PacketBuffer)
        ensures
            b.wf(),
            b.spec_pos() == 0,
            b@ == Seq::new(BUF_LEN as nat, |i: int| 0u8),
    {
        let bytes: Vec<u8> = vec![0u8; BUF_LEN];
        assert(bytes@ =~= Seq::new(BUF_LEN as nat, |i: int| 0u8));
        PacketBuffer { bytes, pos: 0 }
    }

    /// A buffer over octets received from elsewhere, cursor at the start.
    pub fn from_bytes(bytes: Vec<u8>) -> (b: PacketBuffer)
        requires
            bytes@.len() == BUF_LEN,
        ensures
            b.wf(),
            b.spec_pos() == 0,
            b@ == bytes@,
    {
        PacketBuffer { bytes, pos: 0 }
    }

    /// Where the cursor stands.
    pub fn pos(&self) -> (p: usize)
        ensures
            p == self.spec_pos(),
    {
        self.pos
    }

    /// Peeks the octet at absolute index `n` without moving the cursor.
    fn get(&self, n: usize) -> (r: Result<u8, Error>)
        requires
            self.wf(),
        ensures
            r == if n < BUF_LEN {
                Result::<u8, Error>::Ok(self@[n as int])
            } else {
                Result::<u8, Error>::Err(Error::PacketBufferOver512)
            },
    {
        if n >= BUF_LEN {
            return Err(Error::PacketBufferOver512);
        }
        Ok(self.bytes[n])
    }

    /// Moves the cursor forward over `n` octets; refuses to pass the end.
    pub fn step(&mut self, n: usize) -> (r: Result<(), Error>)
        requires
            old(self).wf(),
        ensures
            final(self).wf(),
            final(self)@ == old(self)@,
            if old(self).spec_pos() + n <= BUF_LEN {
                r is Ok && final(self).spec_pos() == old(self).spec_pos() + n
            } else {
                r == Result::<(), Error>::Err(Error::PacketBufferOver512)
                    && final(self).spec_pos() == old(self).spec_pos()
            },
    {
        if n > BUF_LEN - self.pos {
            return Err(Error::PacketBufferOver512);
        }
        self.pos = self.pos + n;
        Ok(())
    }

    /// Places the cursor at absolute index `n`; the target must be inside
    /// the buffer proper, so 512 itself is refused.
    fn seek(&mut self, n: usize) -> (r: Result<(), Error>)
        requires
            old(self).wf(),
        ensures
            final(self).wf(),
            final(self)@ == old(self)@,
            if n < BUF_LEN {
                r is Ok && final(self).spec_pos() == n
            } else {
                r == Result::<(), Error>::Err(Error::PacketBufferOver512)
                    && final(self).spec_pos() == old(self).spec_pos()
            },
    {
        if n >= BUF_LEN {
            return Err(Error::PacketBufferOver512);
        }
        self.pos = n;
        Ok(())
    }

    /// A view of the octets in `[start, start + len)`.
    pub fn get_range(&self, start: usize, len: usize) -> (r: Result<&[u8], Error>)
        requires
            self.wf(),
        ensures
            match r {
                Ok(s) => start + len <= BUF_LEN && s@ == self@.subrange(
                    start as int,
                    start + len,
                ),
                Err(e) => start + len > BUF_LEN && e == Error::PacketBufferOver512,
            },
    {
        if start > BUF_LEN || len > BUF_LEN - start {
            return Err(Error::PacketBufferOver512);
        }
        Ok(vstd::slice::slice_subrange(self.bytes.as_slice(), start, start + len))
    }

    /// Reads the octet under the cursor and steps past it.
    pub fn read_u8(&mut self) -> (r: Result<u8, Error>)
        requires
            old(self).wf(),
        ensures
            final(self).wf(),
            final(self)@ == old(self)@,
            if old(self).spec_pos() < BUF_LEN {
                r == Result::<u8, Error>::Ok(old(self)@[old(self).spec_pos()])
                    && final(self).spec_pos() == old(self).spec_pos() + 1
            } else {
                r == Result::<u8, Error>::Err(Error::PacketBufferOver512)
                    && final(self).spec_pos() == old(self).spec_pos()
            },
    {
        if self.pos >= BUF_LEN {
            return Err(Error::PacketBufferOver512);
        }
        let byte = self.bytes[self.pos];
        self.pos = self.pos + 1;
        Ok(byte)
    }

    /// Reads a big-endian 16-bit value; both octets must lie inside the
    /// buffer, checked before anything moves.
    pub fn read_u16(&mut self) -> (r: Result<u16, Error>)
        requires
            old(self).wf(),
        ensures
            final(self).wf(),
            final(self)@ == old(self)@,
            if old(self).spec_pos() + 2 <= BUF_LEN {
                r == Result::<u16, Error>::Ok(
                    be16(old(self)@[old(self).spec_pos()], old(self)@[old(self).spec_pos() + 1]),
                ) && final(self).spec_pos() == old(self).spec_pos() + 2
            } else {
                r == Result::<u16, Error>::Err(Error::PacketBufferOver512)
                    && final(self).spec_pos() == old(self).spec_pos()
            },
    {
        if self.pos + 2 > BUF_LEN {
            return Err(Error::PacketBufferOver512);
        }
        let hi = self.bytes[self.pos];
        let lo = self.bytes[self.pos + 1];
        self.pos = self.pos + 2;
        Ok((hi as u16) * 256 + (lo as u16))
    }

    /// Reads a big-endian 32-bit value; all four octets must lie inside the
    /// buffer, checked before anything moves.
    pub fn read_u32(&mut self) -> (r: Result<u32, Error>)
        requires
            old(self).wf(),
        ensures
            final(self).wf(),
            final(self)@ == old(self)@,
            if old(self).spec_pos() + 4 <= BUF_LEN {
                r == Result::<u32, Error>::Ok(
                    be32(
                        old(self)@[old(self).spec_pos()],
                        old(self)@[old(self).spec_pos() + 1],
                        old(self)@[old(self).spec_pos() + 2],
                        old(self)@[old(self).spec_pos() + 3],
                    ),
                ) && final(self).spec_pos() == old(self).spec_pos() + 4
            } else {
                r == Result::<u32, Error>::Err(Error::PacketBufferOver512)
                    && final(self).spec_pos() == old(self).spec_pos()
            },
    {
        if self.pos + 4 > BUF_LEN {
            return Err(Error::PacketBufferOver512);
        }
        let b0 = self.bytes[self.pos];
        let b1 = self.bytes[self.pos + 1];
        let b2 = self.bytes[self.pos + 2];
        let b3 = self.bytes[self.pos + 3];
        self.pos = self.pos + 4;
        Ok((b0 as u32) * 0x1000000 + (b1 as u32) * 0x10000 + (b2 as u32) * 256 + (b3 as u32))
    }

    /// Writes one octet at the cursor and steps past it.
    pub fn write_u8(&mut self, value: u8) -> (r: Result<(), Error>)
        requires
            old(self).wf(),
        ensures
            final(self).wf(),
            if old(self).spec_pos() < BUF_LEN {
                r is Ok && final(self)@ == splice(old(self)@, old(self).spec_pos(), seq![value])
                    && final(self).spec_pos() == old(self).spec_pos() + 1
            } else {
                r == Result::<(), Error>::Err(Error::PacketBufferOver512) && final(self)@ == old(
                    self,
                )@ && final(self).spec_pos() == old(self).spec_pos()
            },
    {
        if self.pos >= BUF_LEN {
            return Err(Error::PacketBufferOver512);
        }
        self.bytes[self.pos] = value;
        self.pos = self.pos + 1;
        assert(self@ =~= splice(old(self)@, old(self).spec_pos(), seq![value]));
        Ok(())
    }

    /// Writes a 16-bit value as two big-endian octets; room for both is
    /// checked before anything moves.
    pub fn write_u16(&mut self, value: u16) -> (r: Result<(), Error>)
        requires
            old(self).wf(),
        ensures
            final(self).wf(),
            if old(self).spec_pos() + 2 <= BUF_LEN {
                r is Ok && final(self)@ == splice(old(self)@, old(self).spec_pos(), u16_be(value))
                    && final(self).spec_pos() == old(self).spec_pos() + 2
            } else {
                r == Result::<(), Error>::Err(Error::PacketBufferOver512) && final(self)@ == old(
                    self,
                )@ && final(self).spec_pos() == old(self).spec_pos()
            },
    {
        if self.pos + 2 > BUF_LEN {
            return Err(Error::PacketBufferOver512);
        }
        self.bytes[self.pos] = (value / 256) as u8;
        self.bytes[self.pos + 1] = (value % 256) as u8;
        self.pos = self.pos + 2;
        assert(self@ =~= splice(old(self)@, old(self).spec_pos(), u16_be(value)));
        Ok(())
    }

    /// Writes a 32-bit value as four big-endian octets; room for all four is
    /// checked before anything moves.
    pub fn write_u32(&mut self, value: u32) -> (r: Result<(), Error>)
        requires
            old(self).wf(),
        ensures
            final(self).wf(),
            if old(self).spec_pos() + 4 <= BUF_LEN {
                r is Ok && final(self)@ == splice(old(self)@, old(self).spec_pos(), u32_be(value))
                    && final(self).spec_pos() == old(self).spec_pos() + 4
            } else {
                r == Result::<(), Error>::Err(Error::PacketBufferOver512) && final(self)@ == old(
                    self,
                )@ && final(self).spec_pos() == old(self).spec_pos()
            },
    {
        if self.pos + 4 > BUF_LEN {
            return Err(Error::PacketBufferOver512);
        }
        self.bytes[self.pos] = (value / 0x1000000) as u8;
        self.bytes[self.pos + 1] = ((value / 0x10000) % 256) as u8;
        self.bytes[self.pos + 2] = ((value / 256) % 256) as u8;
        self.bytes[self.pos + 3] = (value % 256) as u8;
        self.pos = self.pos + 4;
        assert(self@ =~= splice(old(self)@, old(self).spec_pos(), u32_be(value)));
        Ok(())
    }

    /// Reads a domain name that starts under the cursor, following
    /// compression pointers, and leaves the cursor just past the name's
    /// first pointer, or past its closing zero octet if it had none.  The
    /// result is the lowercased, dot-joined name, exactly as `scan_name`
    /// describes it.
    pub fn read_qname(&mut self) -> (r: Result<Vec<u8>, Error>)
        requires
            old(self).wf(),
        ensures
            final(self).wf(),
            final(self)@ == old(self)@,
            ({
                let (res, endp) = scan_name(
                    old(self)@,
                    old(self).spec_pos(),
                    0,
                    false,
                    old(self).spec_pos(),
                );
                final(self).spec_pos() == endp && match r {
                    Ok(name) => res == Result::<Seq<u8>, Error>::Ok(name@),
                    Err(e) => res == Result::<Seq<u8>, Error>::Err(e),
                }
            }),
    {
        let ghost start = self.spec_pos();
        let ghost bs = self@;
        let mut jumps: usize = 0;
        let mut jumped: bool = false;
        let mut local_pos: usize = self.pos();
        let mut out: Vec<u8> = Vec::new();

        loop
            invariant
                self.wf(),
                bs == old(self)@,
                start == old(self).spec_pos(),
                bs.len() == BUF_LEN,
                self@ == bs,
                jumps <= MAX_JUMPS,
                !jumped ==> self.spec_pos() == start && local_pos >= start,
                ({
                    let full = scan_name(bs, start, 0, false, start);
                    let now = scan_name(
                        bs,
                        local_pos as int,
                        jumps as int,
                        jumped,
                        self.spec_pos(),
                    );
                    full.1 == now.1 && full.0 == match now.0 {
                        Result::<Seq<u8>, Error>::Ok(tail) => Result::<Seq<u8>, Error>::Ok(
                            join_name(out@, tail),
                        ),
                        Result::<Seq<u8>, Error>::Err(e) => Result::<Seq<u8>, Error>::Err(e),
                    }
                }),
            decreases
                    MAX_JUMPS - jumps,
                    (if local_pos <= BUF_LEN {
                        (BUF_LEN - local_pos) as int
                    } else {
                        0
                    }),
        {
            if jumps >= MAX_JUMPS {
                return Err(Error::MaxJumpsAttained);
            }
            let label_len = self.get(local_pos)?;
            if label_len >= 192 {
                // A compression pointer; consume it once, then hop.
                if !jumped {
                    self.seek(local_pos + 2)?;
                }
                let second = self.get(local_pos + 1)?;
                local_pos = ((label_len - 192) as usize) * 256 + (second as usize);
                jumped = true;
                jumps = jumps + 1;
            } else {
                local_pos = local_pos + 1;
                if label_len == 0 {
                    if !jumped {
                        self.seek(local_pos)?;
                    }
                    proof {
                        assert(join_name(out@, Seq::<u8>::empty()) =~= out@);
                    }
                    return Ok(out);
                }
                let ghost out_entry = out@;
                if out.len() > 0 {
                    out.push(DOT);
                }
                let lab = self.get_range(local_pos, label_len as usize)?;
                let ghost out_dotted = out@;
                let mut i: usize = 0;
                while i < lab.len()
                    invariant
                        i <= lab@.len(),
                        out@.len() == out_dotted.len() + i,
                        forall|j: int| 0 <= j < out_dotted.len() ==> out@[j] == out_dotted[j],
                        forall|j: int|
                            0 <= j < i ==> out@[out_dotted.len() + j] == lower_byte(lab@[j]),
                    decreases lab@.len() - i,
                {
                    let b = lab[i];
                    if b >= 65 && b <= 90 {
                        out.push(b + 32);
                    } else {
                        out.push(b);
                    }
                    i = i + 1;
                }
                proof {
                    assert(out@ =~= out_dotted + lower(lab@));
                    if out_entry.len() > 0 {
                        assert(out_dotted =~= out_entry + seq![DOT]);
                        assert(out@ =~= join_name(out_entry, lower(lab@)));
                    } else {
                        assert(out@ =~= lower(lab@));
                    }
                    // Naming the scan at this label unfolds it one step,
                    // down to the scan at the next one.
                    let _scan_here = scan_name(
                        bs,
                        local_pos - 1,
                        jumps as int,
                        jumped,
                        self.spec_pos(),
                    );
                    let rest = scan_name(
                        bs,
                        local_pos + label_len,
                        jumps as int,
                        jumped,
                        self.spec_pos(),
                    );
                    if rest.0 is Ok {
                        let tail = rest.0->Ok_0;
                        lemma_join_assoc(out_entry, lower(lab@), tail);
                    }
                }
                local_pos = local_pos + label_len as usize;
            }
        }
    }

    /// Writes `qname` as length-prefixed labels closed by a zero octet,
    /// without compression.  A label of 63 or more octets is refused before
    /// anything is written, as is a name the buffer has no room for.
    pub fn write_qname(&mut self, qname: &[u8]) -> (r: Result<(), Error>)
        requires
            old(self).wf(),
        ensures
            final(self).wf(),
            if !name_valid(qname@) {
                r == Result::<(), Error>::Err(Error::LabelLengthOver63) && final(self)@ == old(
                    self,
                )@ && final(self).spec_pos() == old(self).spec_pos()
            } else if old(self).spec_pos() + qname@.len() + 2 > BUF_LEN {
                r == Result::<(), Error>::Err(Error::PacketBufferOver512) && final(self)@ == old(
                    self,
                )@ && final(self).spec_pos() == old(self).spec_pos()
            } else {
                r is Ok && final(self)@ == splice(
                    old(self)@,
                    old(self).spec_pos(),
                    name_wire(qname@),
                ) && final(self).spec_pos() == old(self).spec_pos() + qname@.len() + 2
            },
    {
        if !labels_valid(qname) {
            return Err(Error::LabelLengthOver63);
        }
        if qname.len() >= BUF_LEN || self.pos + qname.len() + 2 > BUF_LEN {
            return Err(Error::PacketBufferOver512);
        }
        let ghost orig = self@;
        let ghost p0 = self.spec_pos();
        let ghost mut ww: Seq<u8> = Seq::<u8>::empty();
        proof {
            assert(splice(orig, p0, ww) =~= orig);
            assert(qname@.subrange(0, qname@.len() as int) =~= qname@);
            assert(ww + name_wire(qname@) =~= name_wire(qname@));
        }
        let mut start: usize = 0;
        loop
            invariant
                self.wf(),
                orig == old(self)@,
                p0 == old(self).spec_pos(),
                orig.len() == BUF_LEN,
                0 <= p0 <= BUF_LEN,
                name_valid(qname@),
                qname@.len() + 2 <= BUF_LEN,
                p0 + qname@.len() + 2 <= BUF_LEN,
                start <= qname@.len(),
                name_valid(qname@.subrange(start as int, qname@.len() as int)),
                ww.len() == start,
                self.spec_pos() == p0 + start,
                self@ == splice(orig, p0, ww),
                ww + name_wire(qname@.subrange(start as int, qname@.len() as int)) == name_wire(
                    qname@,
                ),
            decreases qname@.len() - start,
        {
            let ghost suffix = qname@.subrange(start as int, qname@.len() as int);
            let k = next_dot(qname, start);
            proof {
                lemma_first_dot(suffix);
                lemma_name_wire_len(suffix);
                if k < qname@.len() {
                    lemma_name_wire_len(
                        qname@.subrange(k + 1 as int, qname@.len() as int),
                    );
                    assert(qname@.subrange(k + 1 as int, qname@.len() as int) =~= suffix.subrange(
                        first_dot(suffix) + 1 as int,
                        suffix.len() as int,
                    ));
                }
            }
            let len_byte = (k - start) as u8;
            let label = vstd::slice::slice_subrange(qname, start, k);
            proof {
                assert(label@ =~= suffix.subrange(0, first_dot(suffix) as int));
            }
            self.write_u8(len_byte)?;
            proof {
                lemma_splice_concat(orig, p0, ww, seq![len_byte]);
                ww = ww + seq![len_byte];
            }
            self.write_bytes(label)?;
            proof {
                lemma_splice_concat(orig, p0, ww, label@);
                ww = ww + label@;
            }
            if k == qname.len() {
                self.write_u8(0)?;
                proof {
                    lemma_splice_concat(orig, p0, ww, seq![0u8]);
                    ww = ww + seq![0u8];
                    assert(name_wire(suffix) =~= seq![len_byte] + label@ + seq![0u8]);
                    assert(ww =~= name_wire(qname@));
                }
                return Ok(());
            }
            start = k + 1;
            proof {
                assert(ww + name_wire(qname@.subrange(start as int, qname@.len() as int))
                    =~= name_wire(qname@));
            }
        }
    }

    /// Writes a run of octets at the cursor; room for all of them is
    /// checked before anything moves.
    fn write_bytes(&mut self, data: &[u8]) -> (r: Result<(), Error>)
        requires
            old(self).wf(),
        ensures
            final(self).wf(),
            if old(self).spec_pos() + data@.len() <= BUF_LEN {
                r is Ok && final(self)@ == splice(old(self)@, old(self).spec_pos(), data@)
                    && final(self).spec_pos() == old(self).spec_pos() + data@.len()
            } else {
                r == Result::<(), Error>::Err(Error::PacketBufferOver512) && final(self)@ == old(
                    self,
                )@ && final(self).spec_pos() == old(self).spec_pos()
            },
    {
        if data.len() > BUF_LEN || self.pos > BUF_LEN - data.len() {
            return Err(Error::PacketBufferOver512);
        }
        let ghost orig = self@;
        let ghost p0 = self.spec_pos();
        let mut i: usize = 0;
        proof {
            assert(splice(orig, p0, data@.subrange(0, 0)) =~= orig);
        }
        while i < data.len()
            invariant
                self.wf(),
                orig == old(self)@,
                p0 == old(self).spec_pos(),
                orig.len() == BUF_LEN,
                0 <= p0,
                i <= data@.len(),
                p0 + data@.len() <= BUF_LEN,
                self.spec_pos() == p0 + i,
                self@ == splice(orig, p0, data@.subrange(0, i as int)),
            decreases data@.len() - i,
        {
            let b = data[i];
            self.write_u8(b)?;
            proof {
                lemma_splice_concat(orig, p0, data@.subrange(0, i as int), seq![b]);
                assert(data@.subrange(0, i as int) + seq![b] =~= data@.subrange(0, i + 1 as int));
            }
            i = i + 1;
        }
        proof {
            assert(data@.subrange(0, data@.len() as int) =~= data@);
        }
        Ok(())
    }

    /// Patches a 16-bit big-endian value at an absolute index, without
    /// moving the cursor: high octet at `pos`, low octet at `pos + 1`.
    pub fn set_u16(&mut self, pos: usize, value: u16) -> (r: Result<(), Error>)
        requires
            old(self).wf(),
        ensures
            final(self).wf(),
            final(self).spec_pos() == old(self).spec_pos(),
            if pos + 2 <= BUF_LEN {
                r is Ok && final(self)@ == splice(old(self)@, pos as int, u16_be(value))
            } else {
                r == Result::<(), Error>::Err(Error::PacketBufferOver512) && final(self)@ == old(
                    self,
                )@
            },
    {
        if pos > BUF_LEN || 2 > BUF_LEN - pos {
            return Err(Error::PacketBufferOver512);
        }
        self.bytes[pos] = (value / 256) as u8;
        self.bytes[pos + 1] = (value % 256) as u8;
        assert(self@ =~= splice(old(self)@, pos as int, u16_be(value)));
        Ok(())
    }
}

/// Index of the first dot in `s` at or after `start`, or the length of `s`
/// if there is none.
fn next_dot(s: &[u8], start: usize) -> (k: usize)
    requires
        start <= s@.len(),
    ensures
        start <= k <= s@.len(),
        k - start == first_dot(s@.subrange(start as int, s@.len() as int)),
{
    let mut k = start;
    loop
        invariant
            start <= k <= s@.len(),
            forall|j: int| start <= j < k ==> s@[j] != DOT,
        decreases s@.len() - k,
    {
        if k == s.len() || s[k] == DOT {
            proof {
                let suffix = s@.subrange(start as int, s@.len() as int);
                assert(forall|j: int|
                    0 <= j < k - start ==> suffix[j] == s@[start + j] && suffix[j] != DOT);
                lemma_first_dot_at(suffix, k - start);
            }
            return k;
        }
        k = k + 1;
    }
}

/// Whether every dot-separated label of `s` is at most 62 octets long.
pub(crate) fn labels_valid(s: &[u8]) -> (b: bool)
    ensures
        b == name_valid(s@),
{
    proof {
        assert(s@.subrange(0, s@.len() as int) =~= s@);
    }
    let mut start: usize = 0;
    loop
        invariant
            start <= s@.len(),
            name_valid(s@) == name_valid(s@.subrange(start as int, s@.len() as int)),
        decreases s@.len() - start,
    {
        let ghost suffix = s@.subrange(start as int, s@.len() as int);
        let k = next_dot(s, start);
        if k - start >= 63 {
            return false;
        }
        if k == s.len() {
            return true;
        }
        start = k + 1;
        proof {
            assert(s@.subrange(start as int, s@.len() as int) =~= suffix.subrange(
                first_dot(suffix) + 1 as int,
                suffix.len() as int,
            ));
        }
    }
}

/// Composing the two octets of a 16-bit value gives the value back.
pub proof fn lemma_be16_round_trip(v: u16)
    ensures
        be16(u16_be(v)[0], u16_be(v)[1]) == v,
{
}

/// Composing the four octets of a 32-bit value gives the value back.
pub proof fn lemma_be32_round_trip(v: u32)
    ensures
        be32(u32_be(v)[0], u32_be(v)[1], u32_be(v)[2], u32_be(v)[3]) == v,
{
}

} // verus!
