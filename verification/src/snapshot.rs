//! The snapshot of a catalogue: the place in the change journal, then one
//! record for each file, all numbers big-endian, nothing before and nothing
//! after.

use crate::codec::{
    get_u16_be, get_u32_be, get_u64_be, i64_bits, i64_from_bits, i64_of_bits, i64_to_bits, i8_bits,
    i8_from_bits, i8_of_bits, i8_to_bits, lemma_bits_round_trip, lemma_u16_be_round_trip,
    lemma_u32_be_round_trip, lemma_u64_be_round_trip, put_u16_be, put_u32_be, put_u64_be, u16_be,
    u16_from_be, u32_be, u32_from_be, u64_be, u64_from_be,
};
use crate::file_tree::{lists, name_fits, records_of, storable, Entry, FileEntry, FileTree};
use crate::text::text_from_utf8;
use vstd::prelude::*;
use vstd::slice::{slice_subrange, slice_to_vec};
use vstd::utf8::{decode_utf8, encode_utf8, valid_utf8};

verus! {

/// The bytes before the first record: the place in the change journal.
pub const HEADER_BYTES: usize = 8;

/// The bytes of a record before its name: two reference numbers and the
/// length of the name.
pub const RECORD_HEAD_BYTES: usize = 18;

/// The bytes of a record behind its name: the filter and the rank.
pub const RECORD_TAIL_BYTES: usize = 5;

/// Why a snapshot cannot be read.
#[derive(Clone, Copy, Debug, PartialEq, Eq, Structural)]
pub enum DecodeError {
    /// There are not even the bytes of the place in the journal.
    TooShort,
    /// A record ends behind the end of the data.
    SizeError,
    /// A name is not UTF-8.
    InvalidName,
}

/// What a snapshot holds.
pub struct Snapshot {
    pub start_usn: i64,
    pub records: Seq<(u64, Entry)>,
}

/// The bytes of the record of the file `id`.
#[verifier::opaque]
pub open spec fn record_bytes(id: u64, entry: Entry) -> Seq<u8> {
    u64_be(id) + u64_be(entry.parent_id) + u16_be(encode_utf8(entry.name).len() as u16)
        + encode_utf8(entry.name) + u32_be(entry.quick_filter) + seq![i8_bits(entry.rank)]
}

/// The bytes of the records of `records`, one behind the other.
pub open spec fn records_bytes(records: Seq<(u64, Entry)>) -> Seq<u8>
    decreases records.len(),
{
    if records.len() == 0 {
        Seq::empty()
    } else {
        record_bytes(records[0].0, records[0].1) + records_bytes(records.drop_first())
    }
}

/// The bytes of a snapshot.
pub open spec fn snapshot_bytes(snapshot: Snapshot) -> Seq<u8> {
    u64_be(i64_bits(snapshot.start_usn)) + records_bytes(snapshot.records)
}

/// The length of the name of the record with which `data` begins.
pub open spec fn name_len_at(data: Seq<u8>) -> int {
    u16_from_be(data.subrange(16, 18)) as int
}

/// The bytes of the name of the record with which `data` begins.
pub open spec fn name_at(data: Seq<u8>) -> Seq<u8> {
    data.subrange(RECORD_HEAD_BYTES as int, RECORD_HEAD_BYTES + name_len_at(data))
}

/// The length of the record with which `data` begins.
pub open spec fn record_len(data: Seq<u8>) -> int {
    RECORD_HEAD_BYTES + name_len_at(data) + RECORD_TAIL_BYTES
}

/// What is wrong with the record with which `data` begins, if anything is:
/// it ends behind the end of the data, or its name is not UTF-8.
pub open spec fn record_fault(data: Seq<u8>) -> Option<DecodeError> {
    if data.len() < RECORD_HEAD_BYTES || data.len() < record_len(data) {
        Some(DecodeError::SizeError)
    } else if !valid_utf8(name_at(data)) {
        Some(DecodeError::InvalidName)
    } else {
        None
    }
}

/// The record with which `data` begins, if nothing is wrong with it.
#[verifier::opaque]
pub open spec fn record_at(data: Seq<u8>) -> (u64, Entry) {
    let n = name_len_at(data);
    (
        u64_from_be(data.subrange(0, 8)),
        Entry {
            parent_id: u64_from_be(data.subrange(8, 16)),
            name: decode_utf8(name_at(data)),
            quick_filter: u32_from_be(data.subrange(18 + n, 22 + n)),
            rank: i8_of_bits(data[22 + n]),
        },
    )
}

/// The records that `data` holds, one behind the other up to its end, or
/// what is wrong with the first record that cannot be read.
pub open spec fn parse_records(data: Seq<u8>) -> Result<Seq<(u64, Entry)>, DecodeError>
    decreases data.len(),
{
    if data.len() == 0 {
        Ok(Seq::empty())
    } else {
        match record_fault(data) {
            Some(e) => Err(e),
            None => match parse_records(data.skip(record_len(data))) {
                Ok(rest) => Ok(seq![record_at(data)] + rest),
                Err(e) => Err(e),
            },
        }
    }
}

/// The snapshot that `data` holds, or why it holds none.
pub open spec fn parse_snapshot(data: Seq<u8>) -> Result<Snapshot, DecodeError> {
    if data.len() < HEADER_BYTES {
        Err(DecodeError::TooShort)
    } else {
        match parse_records(data.skip(8)) {
            Ok(records) => Ok(
                Snapshot { start_usn: i64_of_bits(u64_from_be(data.subrange(0, 8))), records },
            ),
            Err(e) => Err(e),
        }
    }
}

/// The catalogue that holds the files of `records`; of two records of one
/// file the later one counts.
pub open spec fn tree_of(records: Seq<(u64, Entry)>) -> Map<u64, Entry>
    decreases records.len(),
{
    if records.len() == 0 {
        Map::empty()
    } else {
        tree_of(records.drop_last()).insert(records.last().0, records.last().1)
    }
}

/// The files of `tree` in ascending order of reference number.
pub open spec fn listing(tree: Map<u64, Entry>) -> Seq<(u64, Entry)> {
    choose|records: Seq<(u64, Entry)>| lists(tree, records)
}

/// Appends `bytes` to `out`.
pub fn put_bytes(out: &mut Vec<u8>, bytes: &[u8])
    ensures
        final(out)@ == old(out)@ + bytes@,
{
    let n = bytes.len();
    let mut i: usize = 0;
    while i < n
        invariant
            i <= n,
            n == bytes.len(),
            out@ == old(out)@ + bytes@.take(i as int),
        decreases n - i,
    {
        out.push(bytes[i]);
        i = i + 1;
    }
    assert(bytes@.take(n as int) =~= bytes@);
}

/// Appends the record of the file `id` to `out`.
pub fn put_record(out: &mut Vec<u8>, id: u64, entry: &FileEntry)
    requires
        name_fits(entry@.name),
    ensures
        final(out)@ == old(out)@ + record_bytes(id, entry@),
{
    let name = entry.name.as_str().as_bytes();
    put_u64_be(out, id);
    put_u64_be(out, entry.parent_id);
    put_u16_be(out, name.len() as u16);
    put_bytes(out, name);
    put_u32_be(out, entry.quick_filter);
    out.push(i8_to_bits(entry.rank));
    reveal(record_bytes);
}

/// The bytes of a list of records with one more record are those of the
/// list followed by those of the record.
pub proof fn lemma_records_bytes_push(records: Seq<(u64, Entry)>, more: (u64, Entry))
    ensures
        records_bytes(records.push(more)) == records_bytes(records) + record_bytes(more.0, more.1),
    decreases records.len(),
{
    if records.len() == 0 {
        let one = records.push(more);
        assert(records_bytes(one.drop_first()) =~= Seq::empty());
    } else {
        lemma_records_bytes_push(records.drop_first(), more);
        assert(records.push(more).drop_first() =~= records.drop_first().push(more));
        assert(records_bytes(records.push(more)) =~= records_bytes(records) + record_bytes(
            more.0,
            more.1,
        ));
    }
}

/// A catalogue has one listing only.
pub proof fn lemma_listing_unique(
    tree: Map<u64, Entry>,
    a: Seq<(u64, Entry)>,
    b: Seq<(u64, Entry)>,
)
    requires
        lists(tree, a),
        lists(tree, b),
    ensures
        a == b,
    decreases a.len(),
{
    if a.len() == 0 {
        if b.len() > 0 {
            assert(tree.contains_key(b[0].0));
        }
    } else {
        let top = a.last().0;
        let j = choose|j: int| 0 <= j < b.len() && #[trigger] b[j].0 == top;
        let i = choose|i: int| 0 <= i < a.len() && #[trigger] a[i].0 == b.last().0;
        let below = tree.remove(top);
        assert(lists(below, a.drop_last())) by {
            assert forall|id: u64| below.contains_key(id) implies exists|i: int|
                0 <= i < a.drop_last().len() && #[trigger] a.drop_last()[i].0 == id by {
                let i = choose|i: int| 0 <= i < a.len() && #[trigger] a[i].0 == id;
                assert(a.drop_last()[i].0 == id);
            }
        }
        assert(lists(below, b.drop_last())) by {
            assert forall|id: u64| below.contains_key(id) implies exists|i: int|
                0 <= i < b.drop_last().len() && #[trigger] b.drop_last()[i].0 == id by {
                let i = choose|i: int| 0 <= i < b.len() && #[trigger] b[i].0 == id;
                assert(b.drop_last()[i].0 == id);
            }
        }
        lemma_listing_unique(below, a.drop_last(), b.drop_last());
        assert(a =~= a.drop_last().push(a.last()));
    }
}

/// The catalogue made of the listing of a catalogue is that catalogue.
pub proof fn lemma_tree_of_listing(tree: Map<u64, Entry>, records: Seq<(u64, Entry)>)
    requires
        lists(tree, records),
    ensures
        tree_of(records) == tree,
    decreases records.len(),
{
    if records.len() > 0 {
        let top = records.last().0;
        let below = tree.remove(top);
        assert(lists(below, records.drop_last())) by {
            assert forall|id: u64| below.contains_key(id) implies exists|i: int|
                0 <= i < records.drop_last().len() && #[trigger] records.drop_last()[i].0
                    == id by {
                let i = choose|i: int| 0 <= i < records.len() && #[trigger] records[i].0 == id;
                assert(records.drop_last()[i].0 == id);
            }
        }
        lemma_tree_of_listing(below, records.drop_last());
    }
}

/// What was written as one record, with whatever follows, is read as that
/// record, and the reading goes on with what follows.
pub proof fn lemma_record_round_trip(id: u64, entry: Entry, more: Seq<u8>)
    requires
        name_fits(entry.name),
    ensures
        record_fault(record_bytes(id, entry) + more) is None,
        record_at(record_bytes(id, entry) + more) == (id, entry),
        record_len(record_bytes(id, entry) + more) == record_bytes(id, entry).len(),
        record_bytes(id, entry).len() > 0,
        (record_bytes(id, entry) + more).skip(record_bytes(id, entry).len() as int) == more,
{
    reveal(record_bytes);
    reveal(record_at);
    let name = encode_utf8(entry.name);
    let n = name.len() as int;
    let data = record_bytes(id, entry) + more;
    vstd::utf8::encode_utf8_valid_utf8(entry.name);
    vstd::utf8::encode_utf8_decode_utf8(entry.name);
    lemma_u64_be_round_trip(id);
    lemma_u64_be_round_trip(entry.parent_id);
    lemma_u16_be_round_trip(n as u16);
    lemma_u32_be_round_trip(entry.quick_filter);
    lemma_bits_round_trip(0, entry.rank);
    assert(name_at(data) =~= name);
}

/// What was written as a list of records is read as that list.
pub proof fn lemma_records_round_trip(records: Seq<(u64, Entry)>)
    requires
        forall|i: int| 0 <= i < records.len() ==> name_fits(#[trigger] records[i].1.name),
    ensures
        parse_records(records_bytes(records)) == Ok::<Seq<(u64, Entry)>, DecodeError>(records),
    decreases records.len(),
{
    if records.len() == 0 {
        assert(records =~= Seq::empty());
    } else {
        let rest = records.drop_first();
        assert forall|i: int| 0 <= i < rest.len() implies name_fits(#[trigger] rest[i].1.name) by {
            assert(rest[i] == records[i + 1]);
        }
        lemma_records_round_trip(rest);
        lemma_record_round_trip(records[0].0, records[0].1, records_bytes(rest));
        assert(seq![records[0]] + rest =~= records);
    }
}

/// Writing a catalogue and reading what was written gives the catalogue
/// back: the same files under the same reference numbers, each with its
/// directory, name, filter and rank, and the same place in the journal.
pub proof fn lemma_snapshot_round_trip(
    start_usn: i64,
    tree: Map<u64, Entry>,
    records: Seq<(u64, Entry)>,
)
    requires
        storable(tree),
        lists(tree, records),
    ensures
        parse_snapshot(snapshot_bytes(Snapshot { start_usn, records })) == Ok::<
            Snapshot,
            DecodeError,
        >(Snapshot { start_usn, records }),
        tree_of(records) == tree,
{
    let written = snapshot_bytes(Snapshot { start_usn, records });
    lemma_records_round_trip(records);
    lemma_tree_of_listing(tree, records);
    lemma_u64_be_round_trip(i64_bits(start_usn));
    lemma_bits_round_trip(start_usn, 0);
    assert(written.skip(8) =~= records_bytes(records));
}

/// Where a record of the file `id` enters a listing: behind the records of
/// all files with lower numbers.
pub open spec fn place_of(records: Seq<(u64, Entry)>, id: u64) -> int
    decreases records.len(),
{
    if records.len() == 0 {
        0
    } else if records.last().0 < id {
        records.len() as int
    } else {
        place_of(records.drop_last(), id)
    }
}

/// In an ascending listing the records before the place of `id` are of
/// lower files, and those from it on are not.
proof fn lemma_place_of(records: Seq<(u64, Entry)>, id: u64)
    requires
        forall|i: int, j: int| 0 <= i < j < records.len() ==> records[i].0 < records[j].0,
    ensures
        0 <= place_of(records, id) <= records.len(),
        forall|i: int| 0 <= i < place_of(records, id) ==> (#[trigger] records[i]).0 < id,
        forall|i: int| place_of(records, id) <= i < records.len() ==> (#[trigger] records[i]).0 >= id,
    decreases records.len(),
{
    if records.len() > 0 && records.last().0 < id {
        assert forall|i: int| 0 <= i < records.len() implies (#[trigger] records[i]).0 < id by {
            if i < records.len() - 1 {
                assert(records[i].0 < records[records.len() - 1].0);
            }
        }
    } else if records.len() > 0 {
        lemma_place_of(records.drop_last(), id);
        assert forall|i: int| 0 <= i < place_of(records, id) implies (#[trigger] records[i]).0
            < id by {
            assert(records.drop_last()[i] == records[i]);
        }
        assert forall|i: int| place_of(records, id) <= i < records.len() implies (
        #[trigger] records[i]).0 >= id by {
            if i < records.len() - 1 {
                assert(records.drop_last()[i] == records[i]);
            }
        }
    }
}

/// Every finite catalogue has a listing.
pub proof fn lemma_listing_exists(tree: Map<u64, Entry>)
    requires
        tree.dom().finite(),
    ensures
        lists(tree, listing(tree)),
    decreases tree.dom().len(),
{
    if tree.dom().len() == 0 {
        assert(lists(tree, Seq::<(u64, Entry)>::empty()));
    } else {
        let id = tree.dom().choose();
        let rest = tree.remove(id);
        lemma_listing_exists(rest);
        let below = listing(rest);
        lemma_place_of(below, id);
        let at = place_of(below, id);
        let records = below.insert(at, (id, tree[id]));
        assert forall|i: int, j: int| 0 <= i < j < records.len() implies records[i].0
            < records[j].0 by {
            if i < at {
                assert(records[i] == below[i]);
            } else if i > at {
                assert(records[i] == below[i - 1]);
            }
            if j < at {
                assert(records[j] == below[j]);
            } else if j > at {
                assert(records[j] == below[j - 1]);
                assert(rest.contains_key(below[j - 1].0));
            }
        }
        assert forall|i: int| 0 <= i < records.len() implies tree.contains_key(
            #[trigger] records[i].0,
        ) && tree[records[i].0] == records[i].1 by {
            if i < at {
                assert(records[i] == below[i]);
                assert(rest.contains_key(below[i].0));
            } else if i > at {
                assert(records[i] == below[i - 1]);
                assert(rest.contains_key(below[i - 1].0));
            }
        }
        assert forall|other: u64| tree.contains_key(other) implies exists|i: int|
            0 <= i < records.len() && #[trigger] records[i].0 == other by {
            if other == id {
                assert(records[at].0 == other);
            } else {
                assert(rest.contains_key(other));
                let i = choose|i: int| 0 <= i < below.len() && #[trigger] below[i].0 == other;
                if i < at {
                    assert(records[i].0 == other);
                } else {
                    assert(records[i + 1] == below[i]);
                    assert(records[i + 1].0 == other);
                }
            }
        }
        assert(lists(tree, records));
    }
}

/// The snapshot of a catalogue and its place in the journal.
pub fn write_snapshot(start_usn: i64, tree: &FileTree) -> (bytes: Vec<u8>)
    ensures
        bytes@ == snapshot_bytes(Snapshot { start_usn, records: listing(tree@) }),
        lists(tree@, listing(tree@)),
        parse_snapshot(bytes@) == Ok::<Snapshot, DecodeError>(
            Snapshot { start_usn, records: listing(tree@) },
        ),
        tree_of(listing(tree@)) == tree@,
{
    let list = tree.entries();
    let ghost records = records_of(list@);
    proof {
        lemma_listing_unique(tree@, records, listing(tree@));
        lemma_snapshot_round_trip(start_usn, tree@, records);
    }
    let mut bytes: Vec<u8> = Vec::new();
    put_u64_be(&mut bytes, i64_to_bits(start_usn));
    let n = list.len();
    let mut i: usize = 0;
    while i < n
        invariant
            i <= n,
            n == list@.len(),
            records == records_of(list@),
            lists(tree@, records),
            storable(tree@),
            bytes@ == u64_be(i64_bits(start_usn)) + records_bytes(records.take(i as int)),
        decreases n - i,
    {
        let (id, entry) = list[i];
        proof {
            lemma_records_bytes_push(records.take(i as int), records[i as int]);
            assert(records.take(i as int).push(records[i as int]) =~= records.take(i + 1));
        }
        put_record(&mut bytes, id, entry);
        i = i + 1;
    }
    assert(records.take(n as int) =~= records);
    bytes
}

/// Reads the record that begins at `at`: the file's reference number, its
/// entry and the place behind the record; or says what is wrong with it.
pub fn read_record(data: &[u8], at: usize) -> (read: Result<(u64, FileEntry, usize), DecodeError>)
    requires
        at < data.len(),
    ensures
        match record_fault(data@.skip(at as int)) {
            Some(e) => read matches Err(err) && err == e,
            None => {
                &&& read matches Ok(record)
                &&& (record.0, record.1@) == record_at(data@.skip(at as int))
                &&& record.2 == at + record_len(data@.skip(at as int))
                &&& record.2 <= data.len()
                &&& name_fits(record.1@.name)
            },
        },
{
    reveal(record_at);
    let n = data.len();
    let ghost here = data@.skip(at as int);
    if n - at < RECORD_HEAD_BYTES {
        return Err(DecodeError::SizeError);
    }
    let id = get_u64_be(data, at);
    let parent_id = get_u64_be(data, at + 8);
    let name_len = get_u16_be(data, at + 16) as usize;
    if n - at - RECORD_HEAD_BYTES < name_len + RECORD_TAIL_BYTES {
        return Err(DecodeError::SizeError);
    }
    let name_from = at + RECORD_HEAD_BYTES;
    let name_bytes = slice_to_vec(slice_subrange(data, name_from, name_from + name_len));
    assert(name_bytes@ =~= name_at(here));
    let name = match text_from_utf8(name_bytes) {
        Some(name) => name,
        None => {
            return Err(DecodeError::InvalidName);
        },
    };
    let quick_filter = get_u32_be(data, name_from + name_len);
    let rank = i8_from_bits(data[name_from + name_len + 4]);
    proof {
        assert(data@.subrange(name_from + name_len, name_from + name_len + 4) =~= here.subrange(
            18 + name_len,
            22 + name_len,
        ));
        vstd::utf8::decode_utf8_encode_utf8(name_at(here));
    }
    Ok((id, FileEntry { parent_id, name, quick_filter, rank }, name_from + name_len + RECORD_TAIL_BYTES))
}

/// The catalogue and the place in the journal that the snapshot `data`
/// holds, or why it holds none.
pub fn read_snapshot(data: &[u8]) -> (read: Result<(i64, FileTree), DecodeError>)
    ensures
        match parse_snapshot(data@) {
            Ok(snapshot) => read matches Ok(pair) && pair.0 == snapshot.start_usn && pair.1@
                == tree_of(snapshot.records),
            Err(e) => read matches Err(err) && err == e,
        },
{
    let n = data.len();
    if n < HEADER_BYTES {
        return Err(DecodeError::TooShort);
    }
    let start_usn = i64_from_bits(get_u64_be(data, 0));
    let mut tree = FileTree::new();
    let mut at: usize = HEADER_BYTES;
    let ghost mut done: Seq<(u64, Entry)> = Seq::empty();
    while at < n
        invariant
            HEADER_BYTES <= at <= n,
            n == data.len(),
            tree@ == tree_of(done),
            parse_records(data@.skip(8)) == match parse_records(data@.skip(at as int)) {
                Ok(rest) => Ok::<Seq<(u64, Entry)>, DecodeError>(done + rest),
                Err(e) => Err(e),
            },
        decreases n - at,
    {
        let ghost here = data@.skip(at as int);
        let (id, entry, next) = match read_record(data, at) {
            Ok(record) => record,
            Err(e) => {
                return Err(e);
            },
        };
        let ghost record = (id, entry@);
        let stored = tree.insert_simple(id, entry);
        proof {
            let after = data@.skip(next as int);
            assert(here.skip(record_len(here)) =~= after);
            let before = done;
            done = done.push(record);
            assert(done.drop_last() =~= before);
            match parse_records(after) {
                Ok(rest) => {
                    assert(before + (seq![record] + rest) =~= done + rest);
                },
                Err(e) => {},
            }
        }
        at = next;
    }
    Ok((start_usn, tree))
}

} // verus!
