//! Error kinds shared by the codec, the cache layer and the resolver.

use vstd::prelude::*;

verus! {

/// Everything that can go wrong inside the library.
///
/// Parse-side failures surface to the client as FORMERR, serialize-side and
/// resolver failures as SERVFAIL; the conversion happens at the query-handler
/// boundary.
#[derive(Clone, Copy, Debug, PartialEq, Eq, Structural)]
pub enum DnsError {
    /// A read or write would cross the 512-byte datagram bound.
    EndOfBuffer,
    /// More than the allowed number of compression jumps in one name.
    JumpsExceeded,
    /// A label of a domain name is longer than 63 octets.
    LabelTooLong,
    /// An error packet was requested with the NOERROR result code.
    NoErrorCode,
    /// A cached row violates its column-set invariant or holds
    /// unparseable text.
    CacheIntegrity,
}

/// Result alias used throughout the library.
pub type CResult<T> = Result<T, DnsError>;

impl DnsError {
    /// A short human-readable description of the failure.
    pub fn describe(&self) -> (r: &'static str)
        ensures
            match self {
                DnsError::EndOfBuffer => r@ == "End of buffer"@,
                DnsError::JumpsExceeded => r@ == "Limit of jumps exceeded"@,
                DnsError::LabelTooLong => r@ == "Single label exceeds 63 characters of length"@,
                DnsError::NoErrorCode => r@ == "ResultCode::NOERROR has been provided"@,
                DnsError::CacheIntegrity => r@ == "Some records haven't been stored correctly"@,
            },
    {
        let r = match self {
            DnsError::EndOfBuffer => "End of buffer",
            DnsError::JumpsExceeded => "Limit of jumps exceeded",
            DnsError::LabelTooLong => "Single label exceeds 63 characters of length",
            DnsError::NoErrorCode => "ResultCode::NOERROR has been provided",
            DnsError::CacheIntegrity => "Some records haven't been stored correctly",
        };
        proof {
            reveal_strlit("End of buffer");
            reveal_strlit("Limit of jumps exceeded");
            reveal_strlit("Single label exceeds 63 characters of length");
            reveal_strlit("ResultCode::NOERROR has been provided");
            reveal_strlit("Some records haven't been stored correctly");
        }
        r
    }
}

} // verus!
