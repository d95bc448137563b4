//! The mathematical model of domain names on the wire.
//!
//! In memory a name is a dot-joined sequence of label octets, lowercase by
//! convention (`www.google.com`).  On the wire it is a run of
//! length-prefixed labels closed by a zero octet, possibly cut short by a
//! two-octet compression pointer whose top two bits are set.

use vstd::prelude::*;

use crate::codes::Error;

verus! {

/// The label separator in the in-memory form of a name.
pub const DOT: u8 = 46;

/// How many compression pointers a single name may follow while decoding.
pub const MAX_JUMPS: usize = 5;

/// Octets in the packet buffer (mirrors `buffer::BUF_LEN` for spec use).
pub const NAME_BUF_LEN: usize = 512;

/// Index of the first dot in `s`, or `s.len()` if there is none.
pub open spec fn first_dot(s: Seq<u8>) -> nat
    decreases s.len(),
{
    if s.len() == 0 {
        0
    } else if s[0] == DOT {
        0
    } else {
        1 + first_dot(s.drop_first())
    }
}

/// `first_dot` points at a dot, or at the end, and nothing before it is a
/// dot.
pub proof fn lemma_first_dot(s: Seq<u8>)
    ensures
        first_dot(s) <= s.len(),
        first_dot(s) < s.len() ==> s[first_dot(s) as int] == DOT,
        forall|j: int| 0 <= j < first_dot(s) ==> s[j] != DOT,
    decreases s.len(),
{
    if s.len() != 0 && s[0] != DOT {
        lemma_first_dot(s.drop_first());
        assert forall|j: int| 1 <= j < first_dot(s) implies s[j] != DOT by {
            assert(s.drop_first()[j - 1] == s[j]);
            assert(s.drop_first()[j - 1] != DOT);
        }
    }
}

/// Any position with a dot, before which there is none, is `first_dot`.
pub proof fn lemma_first_dot_at(s: Seq<u8>, k: int)
    requires
        0 <= k <= s.len(),
        forall|j: int| 0 <= j < k ==> s[j] != DOT,
        k < s.len() ==> s[k] == DOT,
    ensures
        first_dot(s) == k,
    decreases s.len(),
{
    if s.len() != 0 && s[0] != DOT {
        assert(forall|j: int| 0 <= j < k - 1 ==> s.drop_first()[j] == s[j + 1] && s.drop_first()[j]
            != DOT);
        lemma_first_dot_at(s.drop_first(), k - 1);
    }
}

/// Every dot-separated label of `s` is at most 62 octets long, so each fits
/// behind a one-octet length prefix that can never look like a pointer.
pub open spec fn name_valid(s: Seq<u8>) -> bool
    decreases s.len(),
{
    let k = first_dot(s);
    if k >= s.len() {
        k < 63
    } else {
        k < 63 && name_valid(s.subrange(k + 1 as int, s.len() as int))
    }
}

/// Every label of `s` has at least one octet; rules out empty labels, whose
/// zero length octet would close the wire form early, and the empty name.
pub open spec fn name_plain(s: Seq<u8>) -> bool
    decreases s.len(),
{
    let k = first_dot(s);
    if k >= s.len() {
        s.len() >= 1
    } else {
        k >= 1 && name_plain(s.subrange(k + 1 as int, s.len() as int))
    }
}

/// The uncompressed wire form of a name: each label as a length octet
/// followed by its octets, the whole closed by a zero octet.
pub open spec fn name_wire(s: Seq<u8>) -> Seq<u8>
    decreases s.len(),
{
    let k = first_dot(s);
    if k >= s.len() {
        seq![s.len() as u8] + s + seq![0u8]
    } else {
        seq![k as u8] + s.subrange(0, k as int) + name_wire(s.subrange(k + 1 as int, s.len() as int))
    }
}

/// The wire form is always exactly two octets longer than the name: one
/// length octet per label balances one dot per label but the first, and the
/// first label adds its length octet where the closing zero adds the other.
pub proof fn lemma_name_wire_len(s: Seq<u8>)
    ensures
        name_wire(s).len() == s.len() + 2,
    decreases s.len(),
{
    lemma_first_dot(s);
    let k = first_dot(s);
    if k < s.len() {
        lemma_name_wire_len(s.subrange(k + 1 as int, s.len() as int));
    }
}

/// ASCII lowercase of one octet: the uppercase letters fold down, all other
/// octets stay.
pub open spec fn lower_byte(b: u8) -> u8 {
    if 65 <= b <= 90 {
        (b + 32) as u8
    } else {
        b
    }
}

/// Octet-wise ASCII lowercase of a name.
pub open spec fn lower(s: Seq<u8>) -> Seq<u8> {
    s.map_values(|b: u8| lower_byte(b))
}

/// Joining two name fragments with a dot, where either may be empty.
pub open spec fn join_name(a: Seq<u8>, b: Seq<u8>) -> Seq<u8> {
    if a.len() == 0 {
        b
    } else if b.len() == 0 {
        a
    } else {
        a + seq![DOT] + b
    }
}

/// Joining associates as long as the middle fragment is not empty.
pub proof fn lemma_join_assoc(a: Seq<u8>, b: Seq<u8>, c: Seq<u8>)
    requires
        b.len() > 0,
    ensures
        join_name(a, join_name(b, c)) == join_name(join_name(a, b), c),
{
    if a.len() > 0 && c.len() > 0 {
        assert(join_name(a, join_name(b, c)) =~= join_name(join_name(a, b), c));
    }
}

/// One decode step of a name that starts at `p` in a 512-octet buffer.
///
/// Mirrors the reading loop exactly: `jumps` pointers have been followed so
/// far, `jumped` says whether any was, and `cur` is where the buffer cursor
/// stands right now (it moves once, just past the first pointer, or to the
/// octet after the closing zero when no pointer was followed).  The result
/// pairs the decoded, lowercased name - or the error - with the final
/// cursor.
pub open spec fn scan_name(bytes: Seq<u8>, p: int, jumps: int, jumped: bool, cur: int) -> (Result<
    Seq<u8>,
    Error,
>, int)
    decreases MAX_JUMPS - jumps, (if p <= NAME_BUF_LEN { NAME_BUF_LEN - p } else { 0 }),
{
    if jumps >= MAX_JUMPS {
        (Result::Err(Error::MaxJumpsAttained), cur)
    } else if p < 0 || p >= NAME_BUF_LEN {
        (Result::Err(Error::PacketBufferOver512), cur)
    } else {
        let len = bytes[p];
        if len >= 192 {
            // A compression pointer: the 14 low bits are an absolute offset.
            if !jumped {
                if p + 2 >= NAME_BUF_LEN {
                    (Result::Err(Error::PacketBufferOver512), cur)
                } else {
                    scan_name(
                        bytes,
                        (len - 192) * 256 + bytes[p + 1],
                        jumps + 1,
                        true,
                        p + 2,
                    )
                }
            } else {
                if p + 1 >= NAME_BUF_LEN {
                    (Result::Err(Error::PacketBufferOver512), cur)
                } else {
                    scan_name(bytes, (len - 192) * 256 + bytes[p + 1], jumps + 1, true, cur)
                }
            }
        } else if len == 0 {
            // The closing zero octet.
            if jumped {
                (Result::Ok(Seq::<u8>::empty()), cur)
            } else if p + 1 >= NAME_BUF_LEN {
                (Result::Err(Error::PacketBufferOver512), cur)
            } else {
                (Result::Ok(Seq::<u8>::empty()), p + 1)
            }
        } else {
            // A plain label of `len` octets.
            if p + 1 + len > NAME_BUF_LEN {
                (Result::Err(Error::PacketBufferOver512), cur)
            } else {
                let rest = scan_name(bytes, p + 1 + len, jumps, jumped, cur);
                match rest.0 {
                    Result::Ok(tail) => (
                        Result::Ok(join_name(lower(bytes.subrange(p + 1, p + 1 + len)), tail)),
                        rest.1,
                    ),
                    Result::Err(e) => (Result::Err(e), rest.1),
                }
            }
        }
    }
}

/// Where a successful scan leaves the cursor: at `cur` if a pointer had
/// already been followed when it started, else strictly past where it
/// began.
pub proof fn lemma_scan_end(bytes: Seq<u8>, p: int, jumps: int, jumped: bool, cur: int)
    ensures
        (scan_name(bytes, p, jumps, jumped, cur).0 is Ok && jumped) ==> scan_name(
            bytes,
            p,
            jumps,
            jumped,
            cur,
        ).1 == cur,
        (scan_name(bytes, p, jumps, jumped, cur).0 is Ok && !jumped) ==> scan_name(
            bytes,
            p,
            jumps,
            jumped,
            cur,
        ).1 > p,
    decreases MAX_JUMPS - jumps, (if p <= NAME_BUF_LEN { NAME_BUF_LEN - p } else { 0 }),
{
    if jumps >= MAX_JUMPS || p < 0 || p >= NAME_BUF_LEN {
    } else {
        let len = bytes[p];
        if len >= 192 {
            let off = (len - 192) * 256 + bytes[p + 1];
            if !jumped {
                if p + 2 < NAME_BUF_LEN {
                    lemma_scan_end(bytes, off, jumps + 1, true, p + 2);
                }
            } else {
                if p + 1 < NAME_BUF_LEN {
                    lemma_scan_end(bytes, off, jumps + 1, true, cur);
                }
            }
        } else if len == 0 {
        } else {
            if p + 1 + len <= NAME_BUF_LEN {
                lemma_scan_end(bytes, p + 1 + len, jumps, jumped, cur);
            }
        }
    }
}

} // verus!
