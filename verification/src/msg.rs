//! Size limits of the wire format, defined once and proved consistent.

use vstd::prelude::*;

verus! {

/// Number of offsets a compression pointer can address: its target has 14 bits.
pub const MAX_COMPRESSION_OFFSET: usize = 16384;

/// Maximum number of octets in a domain name in wire format.
pub const MAX_DOMAIN_NAME_WIRE_OCTETS: usize = 255;

/// Maximum number of octets in one label.
pub const MAX_LABEL_OCTETS: usize = 63;

/// Maximum number of compression pointers followed while expanding one name.
///
/// Each label in a domain name is at least one octet behind its length octet,
/// and the root label is never reached through a pointer to a pointer, hence
/// the two that are taken off.
pub const MAX_COMPRESSION_POINTERS: usize = (MAX_DOMAIN_NAME_WIRE_OCTETS + 1) / 2 - 2;

/// Maximum number of characters in a domain name in presentation format.
pub const MAX_DOMAIN_NAME_PRESENTATION_LENGTH: usize = 513;

/// The limits agree with each other: the pointer limit is derived from the
/// wire-length limit, a pointer's address space is 14 bits wide, and a label's
/// length fits in the six low bits of its length octet.
pub proof fn lemma_limits_consistent()
    ensures
        MAX_COMPRESSION_POINTERS == (MAX_DOMAIN_NAME_WIRE_OCTETS + 1) / 2 - 2,
        MAX_COMPRESSION_POINTERS == 126,
        MAX_COMPRESSION_OFFSET == 0x4000,
        MAX_LABEL_OCTETS == 0x3f,
        MAX_DOMAIN_NAME_PRESENTATION_LENGTH == 2 * (MAX_DOMAIN_NAME_WIRE_OCTETS + 1) + 1,
{
}

} // verus!
