//! Error kinds and the DNS response code.

use vstd::prelude::*;

verus! {

/// Everything that can go wrong while encoding, decoding or serving a
/// message.  Codec errors abort the packet at hand; transport errors are
/// reported by the unverified socket layer around the library.
#[derive(Clone, Copy, Debug, PartialEq, Eq, Structural)]
pub enum Error {
    /// A decode was started with the cursor somewhere other than where the
    /// operation demands it (the header must be read from position 0), or a
    /// record's payload did not span exactly the announced number of octets.
    PacketBufferInvalidPosition,
    /// A read, write or seek would touch an octet at or past index 512.
    PacketBufferOver512,
    /// Decoding a compressed name followed too many pointers.
    MaxJumpsAttained,
    /// A fixture file path could not be opened (used by the unverified shell).
    InvalidInputPath,
    /// A fixture file could not be read (used by the unverified shell).
    FailedReadingFile,
    /// A domain-name label of 63 or more octets was handed to the encoder.
    LabelLengthOver63,
    /// Binding the local UDP socket failed (transport edge).
    UDPBindFailed,
    /// Sending a datagram failed (transport edge).
    UDPSendFailed,
    /// Receiving a datagram failed (transport edge).
    UDPRecvFailed,
}

/// The four-bit RCODE of a message header.  Codes above five are not
/// distinguished and collapse to `NoError` on decode, as the reference
/// resolver behaviour demands.
#[derive(Clone, Copy, Debug, PartialEq, Eq, Structural)]
pub enum ResultCode {
    NoError,
    FormErr,
    ServFail,
    NXDomain,
    NotImp,
    Refused,
}

impl ResultCode {
    /// The numeric RCODE this variant stands for.
    pub open spec fn spec_to_num(self) -> u8 {
        match self {
            ResultCode::NoError => 0,
            ResultCode::FormErr => 1,
            ResultCode::ServFail => 2,
            ResultCode::NXDomain => 3,
            ResultCode::NotImp => 4,
            ResultCode::Refused => 5,
        }
    }

    /// The variant a numeric RCODE decodes to; anything unknown becomes
    /// `NoError`.
    pub open spec fn spec_from_num(value: u8) -> ResultCode {
        if value == 1 {
            ResultCode::FormErr
        } else if value == 2 {
            ResultCode::ServFail
        } else if value == 3 {
            ResultCode::NXDomain
        } else if value == 4 {
            ResultCode::NotImp
        } else if value == 5 {
            ResultCode::Refused
        } else {
            ResultCode::NoError
        }
    }

    #[verifier::when_used_as_spec(spec_to_num)]
    pub fn to_num(self) -> (n: u8)
        ensures
            n == self.spec_to_num(),
    {
        match self {
            ResultCode::NoError => 0,
            ResultCode::FormErr => 1,
            ResultCode::ServFail => 2,
            ResultCode::NXDomain => 3,
            ResultCode::NotImp => 4,
            ResultCode::Refused => 5,
        }
    }

    #[verifier::when_used_as_spec(spec_from_num)]
    pub fn from_num(value: u8) -> (r: ResultCode)
        ensures
            r == ResultCode::spec_from_num(value),
    {
        match value {
            1 => ResultCode::FormErr,
            2 => ResultCode::ServFail,
            3 => ResultCode::NXDomain,
            4 => ResultCode::NotImp,
            5 => ResultCode::Refused,
            _ => ResultCode::NoError,
        }
    }

    /// Decoding is a left inverse of encoding: every variant survives the
    /// trip through its numeric code.
    pub proof fn lemma_num_round_trip(self)
        ensures
            ResultCode::spec_from_num(self.spec_to_num()) == self,
    {
    }
}

} // verus!
