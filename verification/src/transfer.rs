//! The guard for zone transfers: a transfer is a stream of records that
//! begins and ends with the SOA record of the zone. A stream that was cut
//! short or put in another order is told by that before any of its data is
//! accepted.

use vstd::prelude::*;
use crate::envelope::Record;
use crate::envelope::RecordView;
use crate::envelope::records_of;
use crate::error::Error;

verus! {

/// The record type of the SOA record.
pub const TYPE_SOA: u16 = 6;

/// Whether a stream of records is framed as a zone transfer: it is not
/// empty, and its first and its last record are SOA records.
pub open spec fn transfer_framed(records: Seq<RecordView>) -> bool {
    &&& records.len() > 0
    &&& records[0].rtype == TYPE_SOA
    &&& records[records.len() - 1].rtype == TYPE_SOA
}

/// What the guard says of a stream: nothing if it is framed, `NoSoa` if not.
pub open spec fn transfer_outcome(records: Seq<RecordView>) -> Result<(), Error> {
    if transfer_framed(records) {
        Ok(())
    } else {
        Err(Error::NoSoa)
    }
}

/// Checks that `records` begin and end with an SOA record. Fails with `NoSoa`
/// exactly if they do not, an empty stream included.
pub fn validate_transfer_stream(records: &[Record]) -> (r: Result<(), Error>)
    ensures
        r == transfer_outcome(records_of(records@)),
{
    let n = records.len();
    if n == 0 {
        return Err(Error::NoSoa);
    }
    if records[0].rtype != TYPE_SOA {
        return Err(Error::NoSoa);
    }
    if records[n - 1].rtype != TYPE_SOA {
        return Err(Error::NoSoa);
    }
    Ok(())
}

/// A stream whose first record is not an SOA record is rejected, whatever
/// the records behind it are.
pub proof fn lemma_first_record_must_be_soa(first: RecordView, behind: Seq<RecordView>)
    requires
        first.rtype != TYPE_SOA,
    ensures
        transfer_outcome(seq![first] + behind) == Err::<(), Error>(Error::NoSoa),
{
    assert((seq![first] + behind)[0] == first);
}

/// A stream whose last record is not an SOA record is rejected, whatever
/// the records before it are.
pub proof fn lemma_last_record_must_be_soa(before: Seq<RecordView>, last: RecordView)
    requires
        last.rtype != TYPE_SOA,
    ensures
        transfer_outcome(before.push(last)) == Err::<(), Error>(Error::NoSoa),
{
    assert(before.push(last)[before.push(last).len() - 1] == last);
}

} // verus!
