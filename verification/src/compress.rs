//! Name compression: writing a name as far as it is new, and a pointer to
//! where the rest of it was written before.

use vstd::prelude::*;
use vstd::slice::slice_to_vec;
use crate::cursor::Writer;
use crate::cursor::u16_octets;
use crate::error::Error;
use crate::msg::MAX_COMPRESSION_OFFSET;
use crate::msg::MAX_COMPRESSION_POINTERS;
use crate::msg::MAX_DOMAIN_NAME_WIRE_OCTETS;
use crate::msg::MAX_LABEL_OCTETS;
use crate::name::DomainName;
use crate::name::decode_at;
use crate::name::decode_name;
use crate::name::lemma_lower_name_valid;
use crate::name::same_name;
use crate::name::valid_name;
use crate::name::labels_of;
use crate::name::lower_name;
use crate::name::pointer_target;
use crate::name::wire_len;

verus! {

/// The offset under which `key` was first entered in `table`, if it was.
pub open spec fn find_suffix(table: Seq<(Seq<Seq<u8>>, int)>, key: Seq<Seq<u8>>) -> Option<int>
    decreases table.len(),
{
    if table.len() == 0 {
        None
    } else if table[0].0 == key {
        Some(table[0].1)
    } else {
        find_suffix(table.drop_first(), key)
    }
}

/// The two octets of a pointer to `target`: the two top bits set, then the
/// 14 bits of the offset.
pub open spec fn pointer_octets(target: int) -> Seq<u8> {
    seq![(0xc0 + target / 0x100) as u8, (target % 0x100) as u8]
}

/// What writing `labels` at offset `at` appends, and what the table holds
/// afterwards.
///
/// The name and then each shorter suffix of it is looked up in lower case.
/// What is found is written as a pointer, which ends the name. What is not
/// found has its first label written out, and is entered under the offset of
/// that label if the offset can be pointed to. The root is a zero octet and is
/// never entered.
pub open spec fn compress_name(labels: Seq<Seq<u8>>, at: int, table: Seq<(Seq<Seq<u8>>, int)>) -> (
    Seq<u8>,
    Seq<(Seq<Seq<u8>>, int)>,
)
    decreases labels.len(),
{
    if labels.len() == 0 {
        (seq![0u8], table)
    } else {
        match find_suffix(table, lower_name(labels)) {
            Some(target) => (pointer_octets(target), table),
            None => {
                let grown = if at < MAX_COMPRESSION_OFFSET {
                    table.push((lower_name(labels), at))
                } else {
                    table
                };
                let (rest, last) = compress_name(
                    labels.drop_first(),
                    at + 1 + labels[0].len(),
                    grown,
                );
                (seq![labels[0].len() as u8] + labels[0] + rest, last)
            },
        }
    }
}

/// The octets that writing `labels` at `at` appends.
pub open spec fn compressed_octets(labels: Seq<Seq<u8>>, at: int, table: Seq<(Seq<Seq<u8>>, int)>) -> Seq<
    u8,
> {
    compress_name(labels, at, table).0
}

/// The table after `labels` were written at `at`.
pub open spec fn compressed_table(labels: Seq<Seq<u8>>, at: int, table: Seq<(Seq<Seq<u8>>, int)>) -> Seq<
    (Seq<Seq<u8>>, int),
> {
    compress_name(labels, at, table).1
}

/// Whether reading at `pos` finds `labels` and follows `hops` pointers on
/// the way, however many octets the reader may still take.
pub open spec fn reads(buf: Seq<u8>, pos: int, labels: Seq<Seq<u8>>, hops: nat) -> bool
    decreases hops, labels.len(),
{
    &&& 0 <= pos < buf.len()
    &&& {
        let b = buf[pos] as int;
        if b == 0 {
            labels.len() == 0 && hops == 0
        } else if b < 0x40 {
            &&& labels.len() > 0
            &&& pos + 1 + b <= buf.len()
            &&& labels[0] == buf.subrange(pos + 1, pos + 1 + b)
            &&& reads(buf, pos + 1 + b, labels.drop_first(), hops)
        } else if b >= 0xc0 {
            &&& pos + 1 < buf.len()
            &&& pointer_target(buf, pos) < pos
            &&& hops > 0
            &&& reads(buf, pointer_target(buf, pos), labels, (hops - 1) as nat)
        } else {
            false
        }
    }
}

/// The offset behind the name that begins at `pos`: behind its root, or
/// behind its first pointer.
pub open spec fn span_end(buf: Seq<u8>, pos: int) -> int
    decreases buf.len() - pos,
{
    if pos < 0 || pos >= buf.len() {
        pos
    } else {
        let b = buf[pos] as int;
        if b == 0 {
            pos + 1
        } else if b < 0x40 {
            if pos + 1 + b <= buf.len() {
                span_end(buf, pos + 1 + b)
            } else {
                pos
            }
        } else if b >= 0xc0 {
            pos + 2
        } else {
            pos
        }
    }
}

/// What can be read is what decoding gives, as long as the name stays
/// within the limits of length and of pointers.
pub proof fn lemma_reads_decodes(
    buf: Seq<u8>,
    pos: int,
    labels: Seq<Seq<u8>>,
    needed: nat,
    hops: int,
    used: int,
)
    requires
        reads(buf, pos, labels, needed),
        0 <= used,
        used + wire_len(labels) <= MAX_DOMAIN_NAME_WIRE_OCTETS,
        0 <= hops,
        hops + needed <= MAX_COMPRESSION_POINTERS,
    ensures
        decode_at(buf, pos, hops, used) == Ok::<(Seq<Seq<u8>>, int), Error>(
            (labels, span_end(buf, pos)),
        ),
    decreases needed, labels.len(),
{
    let b = buf[pos] as int;
    if b == 0 {
        assert(labels =~= Seq::<Seq<u8>>::empty());
    } else if b < 0x40 {
        let rest = labels.drop_first();
        assert(labels[0].len() == b);
        assert(wire_len(labels) == 1 + b + wire_len(rest));
        assert(wire_len(rest) >= 1) by {
            if rest.len() > 0 {
                assert(wire_len(rest) == 1 + rest[0].len() + wire_len(rest.drop_first()));
            }
        }
        lemma_reads_decodes(buf, pos + 1 + b, rest, needed, hops, used + 1 + b);
        assert(seq![labels[0]] + rest =~= labels);
    } else {
        lemma_reads_decodes(
            buf,
            pointer_target(buf, pos),
            labels,
            (needed - 1) as nat,
            hops + 1,
            used,
        );
    }
}

/// What can be read stays readable when more is written behind it.
pub proof fn lemma_reads_stable(
    buf: Seq<u8>,
    more: Seq<u8>,
    pos: int,
    labels: Seq<Seq<u8>>,
    hops: nat,
)
    requires
        reads(buf, pos, labels, hops),
    ensures
        reads(buf + more, pos, labels, hops),
        span_end(buf + more, pos) == span_end(buf, pos),
    decreases hops, labels.len(),
{
    let grown = buf + more;
    let b = buf[pos] as int;
    assert(grown[pos] == buf[pos]);
    if b == 0 {
    } else if b < 0x40 {
        assert(grown.subrange(pos + 1, pos + 1 + b) =~= buf.subrange(pos + 1, pos + 1 + b));
        lemma_reads_stable(buf, more, pos + 1 + b, labels.drop_first(), hops);
    } else {
        assert(grown[pos + 1] == buf[pos + 1]);
        lemma_reads_stable(buf, more, pointer_target(buf, pos), labels, (hops - 1) as nat);
    }
}

/// Whether what an entry of the table says can be read in `buf`: at its
/// offset, which a pointer can name, stands a name that in lower case is its
/// key, and reading it follows fewer pointers than it has labels.
pub open spec fn entry_reads(buf: Seq<u8>, entry: (Seq<Seq<u8>>, int)) -> bool {
    &&& 0 <= entry.1 < MAX_COMPRESSION_OFFSET
    &&& exists|labels: Seq<Seq<u8>>, hops: nat| #[trigger]
        reads(buf, entry.1, labels, hops) && lower_name(labels) == entry.0 && hops < labels.len()
}

/// Whether the table agrees with what was written: every entry can be read.
pub open spec fn agrees(buf: Seq<u8>, table: Seq<(Seq<Seq<u8>>, int)>) -> bool {
    forall|i: int| 0 <= i < table.len() ==> entry_reads(buf, #[trigger] table[i])
}

/// A table that agrees with what was written still does when more is
/// written.
pub proof fn lemma_agrees_stable(buf: Seq<u8>, more: Seq<u8>, table: Seq<(Seq<Seq<u8>>, int)>)
    requires
        agrees(buf, table),
    ensures
        agrees(buf + more, table),
{
    assert forall|i: int| 0 <= i < table.len() implies entry_reads(
        buf + more,
        #[trigger] table[i],
    ) by {
        assert(entry_reads(buf, table[i]));
        let (labels, hops) = choose|labels: Seq<Seq<u8>>, hops: nat| #[trigger]
            reads(buf, table[i].1, labels, hops) && lower_name(labels) == table[i].0 && hops
                < labels.len();
        lemma_reads_stable(buf, more, table[i].1, labels, hops);
    }
}

/// What is found in a table is one of its entries.
pub proof fn lemma_found_is_entry(table: Seq<(Seq<Seq<u8>>, int)>, key: Seq<Seq<u8>>) -> (i: int)
    requires
        find_suffix(table, key) is Some,
    ensures
        0 <= i < table.len(),
        table[i] == (key, find_suffix(table, key).unwrap()),
    decreases table.len(),
{
    if table[0].0 == key {
        0
    } else {
        let j = lemma_found_is_entry(table.drop_first(), key);
        assert(table.drop_first()[j] == table[j + 1]);
        j + 1
    }
}

/// Entries under other keys, behind those of a table, change nothing of
/// what is found.
pub proof fn lemma_find_ignores(
    table: Seq<(Seq<Seq<u8>>, int)>,
    extra: Seq<(Seq<Seq<u8>>, int)>,
    key: Seq<Seq<u8>>,
)
    requires
        forall|j: int| 0 <= j < extra.len() ==> (#[trigger] extra[j]).0 != key,
    ensures
        find_suffix(table + extra, key) == find_suffix(table, key),
    decreases table.len() + extra.len(),
{
    let all = table + extra;
    if table.len() > 0 {
        assert(all[0] == table[0]);
        assert(all.drop_first() =~= table.drop_first() + extra);
        lemma_find_ignores(table.drop_first(), extra, key);
    } else if extra.len() > 0 {
        assert(all =~= extra);
        assert(all.drop_first() =~= Seq::<(Seq<Seq<u8>>, int)>::empty() + extra.drop_first());
        assert forall|j: int| 0 <= j < extra.drop_first().len() implies (
        #[trigger] extra.drop_first()[j]).0 != key by {
            assert(extra.drop_first()[j] == extra[j + 1]);
        }
        lemma_find_ignores(Seq::empty(), extra.drop_first(), key);
    } else {
        assert(all =~= table);
    }
}

/// What writing a name appends can be read back where it was written: it
/// reads as the name in some case of letters, follows no more pointers than
/// the name has labels, and ends where the writing ended. Every entry that
/// the writing made can be read, and so can those that the table had.
///
/// The entries `extra` stand for those of longer names whose writing has
/// begun and has not ended; they are under keys that no suffix of `labels`
/// has.
pub proof fn lemma_compress_reads(
    buf: Seq<u8>,
    labels: Seq<Seq<u8>>,
    table: Seq<(Seq<Seq<u8>>, int)>,
    extra: Seq<(Seq<Seq<u8>>, int)>,
) -> (r: (Seq<Seq<u8>>, nat, Seq<(Seq<Seq<u8>>, int)>))
    requires
        forall|i: int| 0 <= i < labels.len() ==> 1 <= #[trigger] labels[i].len() <= MAX_LABEL_OCTETS,
        agrees(buf, table),
        forall|j: int| 0 <= j < extra.len() ==> (#[trigger] extra[j]).0.len() > labels.len(),
    ensures
        reads(
            buf + compressed_octets(labels, buf.len() as int, table + extra),
            buf.len() as int,
            r.0,
            r.1,
        ),
        span_end(
            buf + compressed_octets(labels, buf.len() as int, table + extra),
            buf.len() as int,
        ) == buf.len() + compressed_octets(labels, buf.len() as int, table + extra).len(),
        lower_name(r.0) == lower_name(labels),
        r.1 <= labels.len(),
        compressed_table(labels, buf.len() as int, table + extra) == table + extra + r.2,
        agrees(buf + compressed_octets(labels, buf.len() as int, table + extra), table + r.2),
    decreases labels.len(),
{
    let at = buf.len() as int;
    let all = table + extra;
    let octets = compressed_octets(labels, at, all);
    let after = buf + octets;
    let none = Seq::<(Seq<Seq<u8>>, int)>::empty();
    if labels.len() == 0 {
        assert(after[at] == 0u8);
        assert(all + none =~= all);
        assert(table + none =~= table);
        lemma_agrees_stable(buf, octets, table);
        assert(lower_name(Seq::<Seq<u8>>::empty()) =~= lower_name(labels));
        (Seq::empty(), 0, none)
    } else {
        let key = lower_name(labels);
        assert forall|j: int| 0 <= j < extra.len() implies (#[trigger] extra[j]).0 != key by {
            assert(extra[j].0.len() > key.len());
        }
        lemma_find_ignores(table, extra, key);
        match find_suffix(table, key) {
            Some(target) => {
                let i = lemma_found_is_entry(table, key);
                assert(entry_reads(buf, table[i]));
                let (found, hops) = choose|found: Seq<Seq<u8>>, hops: nat| #[trigger]
                    reads(buf, target, found, hops) && lower_name(found) == key && hops
                        < found.len();
                assert(octets == pointer_octets(target));
                assert(after[at] == (0xc0 + target / 0x100) as u8);
                assert(after[at + 1] == (target % 0x100) as u8);
                assert(pointer_target(after, at) == target);
                lemma_reads_stable(buf, octets, target, found, hops);
                lemma_agrees_stable(buf, octets, table);
                assert(all + none =~= all);
                assert(table + none =~= table);
                assert(found.len() == key.len());
                (found, hops + 1, none)
            },
            None => {
                let first = labels[0];
                let tail = labels.drop_first();
                let n = first.len() as int;
                let entry = (key, at);
                let head = seq![n as u8] + first;
                let begun = buf + head;
                let extra1 = if at < MAX_COMPRESSION_OFFSET {
                    extra.push(entry)
                } else {
                    extra
                };
                let all1 = if at < MAX_COMPRESSION_OFFSET {
                    all.push(entry)
                } else {
                    all
                };
                assert(all1 =~= table + extra1);
                assert(begun.len() == at + 1 + n);
                lemma_agrees_stable(buf, head, table);
                assert forall|i: int| 0 <= i < tail.len() implies 1 <= #[trigger] tail[i].len()
                    <= MAX_LABEL_OCTETS by {
                    assert(tail[i] == labels[i + 1]);
                }
                let (more, hops, added1) = lemma_compress_reads(begun, tail, table, extra1);
                let rest = compressed_octets(tail, at + 1 + n, all1);
                assert(octets == head + rest);
                assert(after =~= begun + rest);
                let read = seq![first] + more;
                assert(after[at] == n as u8);
                assert(after.subrange(at + 1, at + 1 + n) =~= first);
                assert(read.drop_first() =~= more);
                assert(reads(after, at, read, hops));
                assert(more.len() == lower_name(more).len());
                assert(tail.len() == lower_name(tail).len());
                assert(lower_name(read) =~= key) by {
                    assert(lower_name(more) == lower_name(tail));
                    assert(read.len() == 1 + more.len());
                    assert(lower_name(read).len() == key.len());
                    assert forall|i: int| 0 <= i < key.len() implies lower_name(read)[i]
                        == key[i] by {
                        if i > 0 {
                            assert(read[i] == more[i - 1]);
                            assert(labels[i] == tail[i - 1]);
                            assert(lower_name(more)[i - 1] == lower_name(tail)[i - 1]);
                        }
                    }
                }
                let added = if at < MAX_COMPRESSION_OFFSET {
                    seq![entry] + added1
                } else {
                    added1
                };
                assert(table + extra1 + added1 =~= table + extra + added);
                assert forall|i: int| 0 <= i < (table + added).len() implies entry_reads(
                    after,
                    #[trigger] (table + added)[i],
                ) by {
                    if at < MAX_COMPRESSION_OFFSET && i == table.len() {
                        assert((table + added)[i] == entry);
                        assert(reads(after, entry.1, read, hops) && lower_name(read) == entry.0
                            && hops < read.len());
                    } else if i < table.len() {
                        assert((table + added)[i] == (table + added1)[i]);
                    } else if at < MAX_COMPRESSION_OFFSET {
                        assert((table + added)[i] == (table + added1)[i - 1]);
                    } else {
                        assert((table + added)[i] == (table + added1)[i]);
                    }
                }
                (read, hops, added)
            },
        }
    }
}

/// A name that is written with compression and decoded where it was written
/// is the same name, the case of letters apart, and the table then still
/// agrees with what was written. The name may have as many labels as
/// pointers may be followed; a pointer to a name of more labels, each
/// written behind a pointer of its own, could not be followed to its end.
pub proof fn lemma_decode_compressed(
    buf: Seq<u8>,
    labels: Seq<Seq<u8>>,
    table: Seq<(Seq<Seq<u8>>, int)>,
    behind: Seq<u8>,
)
    requires
        valid_name(labels),
        labels.len() <= MAX_COMPRESSION_POINTERS,
        agrees(buf, table),
    ensures
        decode_name(
            buf + compressed_octets(labels, buf.len() as int, table) + behind,
            buf.len() as int,
        ) matches Ok((read, end)) && same_name(read, labels) && end == buf.len()
            + compressed_octets(labels, buf.len() as int, table).len(),
        agrees(
            buf + compressed_octets(labels, buf.len() as int, table) + behind,
            compressed_table(labels, buf.len() as int, table),
        ),
{
    let none = Seq::<(Seq<Seq<u8>>, int)>::empty();
    let at = buf.len() as int;
    assert(table + none =~= table);
    let (read, hops, added) = lemma_compress_reads(buf, labels, table, none);
    let octets = compressed_octets(labels, at, table);
    assert(table + none + added =~= table + added);
    lemma_reads_stable(buf + octets, behind, at, read, hops);
    lemma_agrees_stable(buf + octets, behind, table + added);
    lemma_lower_name_valid(read);
    lemma_lower_name_valid(labels);
    lemma_reads_decodes(buf + octets + behind, at, read, hops, 0, 0);
}

/// Writing a name leaves the entries of the table as they were and adds
/// entries behind them, each under a key of no more labels than the name.
pub proof fn lemma_table_extends(
    labels: Seq<Seq<u8>>,
    at: int,
    table: Seq<(Seq<Seq<u8>>, int)>,
) -> (added: Seq<(Seq<Seq<u8>>, int)>)
    ensures
        compressed_table(labels, at, table) == table + added,
        forall|j: int| 0 <= j < added.len() ==> (#[trigger] added[j]).0.len() <= labels.len(),
    decreases labels.len(),
{
    let none = Seq::<(Seq<Seq<u8>>, int)>::empty();
    if labels.len() == 0 {
        assert(table + none =~= table);
        none
    } else {
        match find_suffix(table, lower_name(labels)) {
            Some(_) => {
                assert(table + none =~= table);
                none
            },
            None => {
                let entry = (lower_name(labels), at);
                let grown = if at < MAX_COMPRESSION_OFFSET {
                    table.push(entry)
                } else {
                    table
                };
                let more = lemma_table_extends(
                    labels.drop_first(),
                    at + 1 + labels[0].len(),
                    grown,
                );
                let added = if at < MAX_COMPRESSION_OFFSET {
                    seq![entry] + more
                } else {
                    more
                };
                assert(grown + more =~= table + added);
                assert forall|j: int| 0 <= j < added.len() implies (#[trigger] added[j]).0.len()
                    <= labels.len() by {
                    if at < MAX_COMPRESSION_OFFSET && j > 0 {
                        assert(added[j] == more[j - 1]);
                    }
                }
                added
            },
        }
    }
}

/// A key that a table does not hold is found, once it is entered behind the
/// others, at the offset under which it was entered.
pub proof fn lemma_find_pushed(table: Seq<(Seq<Seq<u8>>, int)>, key: Seq<Seq<u8>>, at: int)
    requires
        find_suffix(table, key) is None,
    ensures
        find_suffix(table.push((key, at)), key) == Some(at),
    decreases table.len(),
{
    let grown = table.push((key, at));
    if table.len() > 0 {
        assert(grown[0] == table[0]);
        assert(grown.drop_first() =~= table.drop_first().push((key, at)));
        lemma_find_pushed(table.drop_first(), key, at);
    }
}

/// A name that was written where a pointer can reach is written as a
/// pointer when it comes again, in whatever case of letters and wherever:
/// two octets, fewer than the name takes without compression, that name the
/// offset of its first writing. The table is left as it was.
pub proof fn lemma_repeated_name_is_pointer(
    labels: Seq<Seq<u8>>,
    again: Seq<Seq<u8>>,
    table: Seq<(Seq<Seq<u8>>, int)>,
    at: int,
    later: int,
)
    requires
        labels.len() > 0,
        0 <= at < MAX_COMPRESSION_OFFSET,
        valid_name(again),
        same_name(again, labels),
    ensures
        ({
            let written = compressed_table(labels, at, table);
            let first = match find_suffix(table, lower_name(labels)) {
                Some(before) => before,
                None => at,
            };
            &&& compress_name(again, later, written) == (pointer_octets(first), written)
            &&& pointer_octets(first).len() == 2
            &&& wire_len(again) > 2
        }),
{
    let key = lower_name(labels);
    let written = compressed_table(labels, at, table);
    assert(lower_name(again).len() == again.len());
    assert(key.len() == labels.len());
    assert(lower_name(again) == key);
    assert(wire_len(again) > 2) by {
        let rest = again.drop_first();
        assert(wire_len(again) == 1 + again[0].len() + wire_len(rest));
        if rest.len() > 0 {
            assert(wire_len(rest) == 1 + rest[0].len() + wire_len(rest.drop_first()));
        }
    }
    match find_suffix(table, key) {
        Some(before) => {
            assert(written == table);
            assert(find_suffix(written, key) == Some(before));
        },
        None => {
            let entry = (key, at);
            let grown = table.push(entry);
            let more = lemma_table_extends(labels.drop_first(), at + 1 + labels[0].len(), grown);
            assert(written == grown + more);
            assert forall|j: int| 0 <= j < more.len() implies (#[trigger] more[j]).0 != key by {
                assert(more[j].0.len() < key.len());
            }
            lemma_find_ignores(grown, more, key);
            lemma_find_pushed(table, key, at);
            assert(find_suffix(written, key) == Some(at));
        },
    }
}

/// One name suffix in lower case and the offset at which it was written.
struct Suffix {
    labels: Vec<Vec<u8>>,
    offset: usize,
}

/// The name suffixes written so far in one message, each in lower case with
/// the offset at which it was first written. Only offsets that a pointer can
/// name, those below 16384, are held.
pub struct CompressionTable {
    entries: Vec<Suffix>,
}

impl View for CompressionTable {
    type V = Seq<(Seq<Seq<u8>>, int)>;

    /// The entries in the order in which they were made.
    closed spec fn view(&self) -> Seq<(Seq<Seq<u8>>, int)> {
        Seq::new(
            self.entries@.len(),
            |i: int| (labels_of(self.entries@[i].labels@), self.entries@[i].offset as int),
        )
    }
}

impl CompressionTable {
    /// Whether every offset in the table can be named by a pointer. It holds
    /// of a new table and is kept by every operation.
    pub open spec fn wf(&self) -> bool {
        forall|i: int| 0 <= i < self@.len() ==> 0 <= (#[trigger] self@[i]).1 < MAX_COMPRESSION_OFFSET
    }

    /// An empty table.
    pub fn new() -> (table: CompressionTable)
        ensures
            table@ == Seq::<(Seq<Seq<u8>>, int)>::empty(),
            table.wf(),
    {
        let table = CompressionTable { entries: Vec::new() };
        assert(table@ =~= Seq::<(Seq<Seq<u8>>, int)>::empty());
        table
    }

    /// The number of entries.
    pub fn len(&self) -> (n: usize)
        ensures
            n == self@.len(),
    {
        self.entries.len()
    }

    /// Forgets every entry from index `len` on; does nothing if there are
    /// fewer.
    pub fn truncate(&mut self, len: usize)
        requires
            old(self).wf(),
        ensures
            final(self).wf(),
            len <= old(self)@.len() ==> final(self)@ == old(self)@.subrange(0, len as int),
            len > old(self)@.len() ==> final(self)@ == old(self)@,
    {
        self.entries.truncate(len);
        proof {
            if len <= old(self)@.len() {
                assert(self@ =~= old(self)@.subrange(0, len as int));
            } else {
                assert(self@ =~= old(self)@);
            }
            assert forall|i: int| 0 <= i < self@.len() implies 0 <= (#[trigger] self@[i]).1
                < MAX_COMPRESSION_OFFSET by {
                assert(self@[i] == old(self)@[i]);
            }
        }
    }

    /// The offset at which `name` was first written, if it was.
    pub fn lookup(&self, name: &DomainName) -> (r: Option<usize>)
        requires
            self.wf(),
        ensures
            match r {
                Some(target) => find_suffix(self@, lower_name(name@)) == Some(target as int)
                    && target < MAX_COMPRESSION_OFFSET,
                None => find_suffix(self@, lower_name(name@)) is None,
            },
    {
        let low = name.to_lowercase();
        assert(low@.skip(0) =~= low@);
        self.find(&low, 0)
    }

    /// The offset under which what is left of `low` from label `from` on was
    /// first entered, if it was.
    fn find(&self, low: &DomainName, from: usize) -> (r: Option<usize>)
        requires
            self.wf(),
            from <= low@.len(),
        ensures
            match r {
                Some(target) => find_suffix(self@, low@.skip(from as int)) == Some(target as int)
                    && target < MAX_COMPRESSION_OFFSET,
                None => find_suffix(self@, low@.skip(from as int)) is None,
            },
    {
        let ghost key = low@.skip(from as int);
        let mut i: usize = 0;
        assert(self@.skip(0) =~= self@);
        while i < self.entries.len()
            invariant
                i <= self.entries.len(),
                from <= low@.len(),
                key == low@.skip(from as int),
                find_suffix(self@, key) == find_suffix(self@.skip(i as int), key),
                forall|k: int|
                    0 <= k < self@.len() ==> 0 <= (#[trigger] self@[k]).1 < MAX_COMPRESSION_OFFSET,
            decreases self.entries.len() - i,
        {
            let entry = &self.entries[i];
            assert(self@.skip(i as int)[0] == self@[i as int]);
            assert(self@.skip(i as int).drop_first() =~= self@.skip(i + 1));
            if same_suffix(&entry.labels, low, from) {
                return Some(entry.offset);
            }
            i = i + 1;
        }
        None
    }

    /// Enters what is left of `low` from label `from` on under `offset`.
    fn enter(&mut self, low: &DomainName, from: usize, offset: usize)
        requires
            old(self).wf(),
            from <= low@.len(),
            offset < MAX_COMPRESSION_OFFSET,
        ensures
            final(self).wf(),
            final(self)@ == old(self)@.push((low@.skip(from as int), offset as int)),
    {
        let mut labels: Vec<Vec<u8>> = Vec::new();
        let mut j: usize = from;
        let count = low.label_count();
        while j < count
            invariant
                from <= j <= count,
                count == low@.len(),
                labels@.len() == j - from,
                forall|k: int| 0 <= k < j - from ==> (#[trigger] labels@[k])@ == low@[from + k],
            decreases count - j,
        {
            labels.push(slice_to_vec(low.label(j)));
            j = j + 1;
        }
        assert(labels_of(labels@) =~= low@.skip(from as int));
        self.entries.push(Suffix { labels, offset });
        proof {
            assert(self@ =~= old(self)@.push((low@.skip(from as int), offset as int)));
            assert forall|i: int| 0 <= i < self@.len() implies 0 <= (#[trigger] self@[i]).1
                < MAX_COMPRESSION_OFFSET by {
                if i < old(self)@.len() {
                    assert(self@[i] == old(self)@[i]);
                }
            }
        }
    }
}

/// Whether `labels` are what is left of `low` from label `from` on.
fn same_suffix(labels: &Vec<Vec<u8>>, low: &DomainName, from: usize) -> (same: bool)
    requires
        from <= low@.len(),
    ensures
        same == (labels_of(labels@) == low@.skip(from as int)),
{
    let count = low.label_count();
    if labels.len() != count - from {
        assert(labels_of(labels@).len() != low@.skip(from as int).len());
        return false;
    }
    let mut j: usize = 0;
    while j < labels.len()
        invariant
            j <= labels.len(),
            from <= low@.len(),
            count == low@.len(),
            labels.len() == count - from,
            forall|k: int| 0 <= k < j ==> (#[trigger] labels@[k])@ == low@[from + k],
        decreases labels.len() - j,
    {
        if !same_octets(labels[j].as_slice(), low.label(from + j)) {
            assert(labels_of(labels@)[j as int] != low@.skip(from as int)[j as int]);
            return false;
        }
        j = j + 1;
    }
    assert(labels_of(labels@) =~= low@.skip(from as int));
    true
}

/// Whether two runs of octets are equal.
pub fn same_octets(a: &[u8], b: &[u8]) -> (same: bool)
    ensures
        same == (a@ == b@),
{
    if a.len() != b.len() {
        return false;
    }
    let mut i: usize = 0;
    while i < a.len()
        invariant
            i <= a.len(),
            a.len() == b.len(),
            forall|k: int| 0 <= k < i ==> a@[k] == b@[k],
        decreases a.len() - i,
    {
        if a[i] != b[i] {
            return false;
        }
        i = i + 1;
    }
    assert(a@ =~= b@);
    true
}

impl DomainName {
    /// Appends the name in wire format, compressed against `table`, and gives
    /// the offset behind it: see `compress_name`. Fails with `BufferTooSmall`
    /// exactly if what is to be written does not fit; neither the buffer nor
    /// the table is changed then.
    pub fn encode(&self, w: &mut Writer, table: &mut CompressionTable) -> (r: Result<usize, Error>)
        requires
            old(table).wf(),
        ensures
            final(table).wf(),
            final(w).capacity() == old(w).capacity(),
            old(w)@.len() + compressed_octets(self@, old(w)@.len() as int, old(table)@).len() <= old(
                w,
            ).capacity() ==> {
                &&& final(w)@ == old(w)@ + compressed_octets(
                    self@,
                    old(w)@.len() as int,
                    old(table)@,
                )
                &&& final(table)@ == compressed_table(self@, old(w)@.len() as int, old(table)@)
                &&& r == Ok::<usize, Error>(final(w)@.len() as usize)
            },
            old(w)@.len() + compressed_octets(self@, old(w)@.len() as int, old(table)@).len() > old(
                w,
            ).capacity() ==> {
                &&& final(w)@ == old(w)@
                &&& final(table)@ == old(table)@
                &&& r == Err::<usize, Error>(Error::BufferTooSmall)
            },
    {
        proof {
            use_type_invariant(self);
        }
        let low = self.to_lowercase();
        let start = w.position();
        let mark = table.len();
        let count = self.label_count();
        let ghost goal = compress_name(self@, start as int, old(table)@);
        let ghost mut emitted = Seq::<u8>::empty();
        let mut i: usize = 0;
        proof {
            assert(self@.skip(0) =~= self@);
            assert(emitted + goal.0 =~= goal.0);
            assert(w@ =~= old(w)@ + emitted);
            assert(table@.subrange(0, mark as int) =~= old(table)@);
        }
        loop
            invariant
                i <= count,
                count == self@.len(),
                low@ == lower_name(self@),
                crate::name::valid_name(self@),
                start == old(w)@.len(),
                w.capacity() == old(w).capacity(),
                w@ == old(w)@ + emitted,
                mark == old(table)@.len(),
                mark <= table@.len(),
                table.wf(),
                table@.subrange(0, mark as int) == old(table)@,
                goal == compress_name(self@, start as int, old(table)@),
                goal.0 == emitted + compressed_octets(self@.skip(i as int), w@.len() as int, table@),
                goal.1 == compressed_table(self@.skip(i as int), w@.len() as int, table@),
            decreases count - i,
        {
            let ghost rest = self@.skip(i as int);
            if i == count {
                assert(rest =~= Seq::<Seq<u8>>::empty());
                match w.write_u8(0u8) {
                    Ok(()) => {
                        assert(w@ =~= old(w)@ + goal.0);
                        return Ok(w.position());
                    },
                    Err(e) => {
                        w.rewind(start);
                        table.truncate(mark);
                        assert(w@ =~= old(w)@);
                        return Err(e);
                    },
                }
            }
            proof {
                assert(rest[0] == self@[i as int]);
                assert(rest.drop_first() =~= self@.skip(i + 1));
                assert(lower_name(rest) =~= low@.skip(i as int));
            }
            match table.find(&low, i) {
                Some(target) => {
                    assert(u16_octets(0xc000 + target) =~= pointer_octets(target as int));
                    match w.write_u16((0xc000 + target) as u16) {
                        Ok(()) => {
                            assert(w@ =~= old(w)@ + goal.0);
                            return Ok(w.position());
                        },
                        Err(e) => {
                            w.rewind(start);
                            table.truncate(mark);
                            assert(w@ =~= old(w)@);
                            return Err(e);
                        },
                    }
                },
                None => {
                    let label = self.label(i);
                    let at = w.position();
                    if !w.fits(1 + label.len()) {
                        w.rewind(start);
                        table.truncate(mark);
                        assert(w@ =~= old(w)@);
                        return Err(Error::BufferTooSmall);
                    }
                    if at < MAX_COMPRESSION_OFFSET {
                        table.enter(&low, i, at);
                        assert(table@.subrange(0, mark as int) =~= old(table)@);
                    }
                    let ghost before = w@;
                    let _ = w.write_u8(label.len() as u8);
                    let _ = w.write_bytes(label);
                    proof {
                        let piece = seq![label@.len() as u8] + label@;
                        assert(w@ =~= before + piece);
                        assert(w@ =~= old(w)@ + (emitted + piece));
                        let more = compressed_octets(self@.skip(i + 1), w@.len() as int, table@);
                        assert(emitted + (piece + more) =~= (emitted + piece) + more);
                        emitted = emitted + piece;
                    }
                    i = i + 1;
                },
            }
        }
    }
}

} // verus!
