//! The closed set of failures that the toolkit reports.

use vstd::prelude::*;
use vstd::string::StringExecFns;

verus! {

/// Every way in which an operation of this crate can fail. A kind carries no
/// payload.
#[derive(Debug, Clone, Copy, PartialEq, Eq, Structural)]
pub enum Error {
    /// There is no more work to do.
    Done,
    /// An error with the (DNSSEC) algorithm.
    BadAlgorithm,
    /// An error in the TSIG authentication.
    BadAuthentication,
    /// The buffer used is too small for the message.
    BufferTooSmall,
    /// A connection is being used before it is initialized.
    ConnEmpty,
    /// A rcode above 15 without an OPT record to carry its upper bits, or a
    /// malformed OPT record.
    BadExtendedRcode,
    /// A domain name does not have a closing dot.
    NotFqdn,
    /// There is a mismatch with the message's ID.
    IdMismatch,
    /// The algorithm in the key is not valid.
    BadKeyAlgorithm,
    /// No usable key.
    BadKey,
    /// A key of the wrong size.
    BadKeySize,
    /// A domain name longer than the wire format allows, or one that needs
    /// too many compression pointers.
    LongDomain,
    /// No signature where one is required.
    NoSignature,
    /// A private key that cannot be used.
    BadPrivateKey,
    /// A rcode that is not assigned.
    BadRcode,
    /// Malformed record data.
    BadRdata,
    /// A record set that is not one, or a section that does not hold the
    /// records its count declares.
    BadRrset,
    /// No secret is known for the key that is named.
    NoSecrets,
    /// The input ends before the value does.
    ShortRead,
    /// A signature can not be cryptographically validated.
    BadSignature,
    /// No SOA record was seen where a zone transfer must have one.
    NoSoa,
    /// A timestamp outside the window in which it is accepted.
    BadTime,
}

impl Error {
    /// The text that describes the failure.
    pub open spec fn text(self) -> Seq<char> {
        match self {
            Error::Done => "done"@,
            Error::BadAlgorithm => "bad algorithm"@,
            Error::BadAuthentication => "bad authentication"@,
            Error::BufferTooSmall => "buffer size too small"@,
            Error::ConnEmpty => "conn has no connection"@,
            Error::BadExtendedRcode => "bad extended rcode"@,
            Error::NotFqdn => "domain must be fully qualified"@,
            Error::IdMismatch => "id mismatch"@,
            Error::BadKeyAlgorithm => "bad key algorithm"@,
            Error::BadKey => "bad key"@,
            Error::BadKeySize => "bad key size"@,
            Error::LongDomain => "domain name exceeded 255 wire-format octets"@,
            Error::NoSignature => "no signature found"@,
            Error::BadPrivateKey => "bad private key"@,
            Error::BadRcode => "bad rcode"@,
            Error::BadRdata => "bad rdata"@,
            Error::BadRrset => "bad rrset"@,
            Error::NoSecrets => "no secrets defined"@,
            Error::ShortRead => "short read"@,
            Error::BadSignature => "bad signature"@,
            Error::NoSoa => "no SOA"@,
            Error::BadTime => "bad time"@,
        }
    }

    /// Renders the failure as text.
    pub fn to_string(&self) -> (s: String)
        ensures
            s@ == self.text(),
    {
        match self {
            Error::Done => String::from_str("done"),
            Error::BadAlgorithm => String::from_str("bad algorithm"),
            Error::BadAuthentication => String::from_str("bad authentication"),
            Error::BufferTooSmall => String::from_str("buffer size too small"),
            Error::ConnEmpty => String::from_str("conn has no connection"),
            Error::BadExtendedRcode => String::from_str("bad extended rcode"),
            Error::NotFqdn => String::from_str("domain must be fully qualified"),
            Error::IdMismatch => String::from_str("id mismatch"),
            Error::BadKeyAlgorithm => String::from_str("bad key algorithm"),
            Error::BadKey => String::from_str("bad key"),
            Error::BadKeySize => String::from_str("bad key size"),
            Error::LongDomain => String::from_str("domain name exceeded 255 wire-format octets"),
            Error::NoSignature => String::from_str("no signature found"),
            Error::BadPrivateKey => String::from_str("bad private key"),
            Error::BadRcode => String::from_str("bad rcode"),
            Error::BadRdata => String::from_str("bad rdata"),
            Error::BadRrset => String::from_str("bad rrset"),
            Error::NoSecrets => String::from_str("no secrets defined"),
            Error::ShortRead => String::from_str("short read"),
            Error::BadSignature => String::from_str("bad signature"),
            Error::NoSoa => String::from_str("no SOA"),
            Error::BadTime => String::from_str("bad time"),
        }
    }
}

} // verus!
