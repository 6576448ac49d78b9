//! The records that the file system hands out, when it lists a volume's
//! files and when it reports what has changed, and what a change does to a
//! catalogue.

use crate::codec::{
    get_u16_le, get_u32_le, get_u64_le, i64_from_bits, i64_of_bits, u16_from_le, u32_from_le,
    u64_from_le,
};
use crate::file_tree::{entry_of, name_fits, Entry, FileTree};
use crate::text::{text_from_utf16, utf16_text};
use vstd::prelude::*;
use vstd::string::StringExecFns;

verus! {

/// A file was created.
pub const USN_REASON_FILE_CREATE: u32 = 0x0000_0100;

/// A file was deleted.
pub const USN_REASON_FILE_DELETE: u32 = 0x0000_0200;

/// A file was renamed; the record holds the name it had.
pub const USN_REASON_RENAME_OLD_NAME: u32 = 0x0000_1000;

/// A file was renamed; the record holds the name it has now.
pub const USN_REASON_RENAME_NEW_NAME: u32 = 0x0000_2000;

/// The reasons of the changes that a catalogue follows.
pub const REASON_MASK: u32 = 0x0000_3300;

/// The reasons for which a record's file enters the catalogue; for all
/// others it leaves.
pub const ADDING_REASONS: u32 = 0x0000_2100;

/// The attribute of a record whose file is a directory.
pub const FILE_ATTRIBUTE_DIRECTORY: u32 = 0x0000_0010;

/// The bytes with which a buffer of records begins: where the next buffer
/// is to start.
pub const CURSOR_BYTES: usize = 8;

/// The bytes of a record before its name.
pub const USN_HEAD_BYTES: usize = 60;

/// What a `UsnRecord` holds, as plain values.
pub struct Change {
    pub file_ref: u64,
    pub parent_ref: u64,
    pub usn: i64,
    pub reason: u32,
    pub attributes: u32,
    pub name: Seq<char>,
}

/// One record of the file system: a file, the directory that holds it, and
/// why the record was written.
pub struct UsnRecord {
    pub file_ref: u64,
    pub parent_ref: u64,
    pub usn: i64,
    pub reason: u32,
    pub attributes: u32,
    pub name: String,
}

impl View for UsnRecord {
    type V = Change;

    open spec fn view(&self) -> Change {
        Change {
            file_ref: self.file_ref,
            parent_ref: self.parent_ref,
            usn: self.usn,
            reason: self.reason,
            attributes: self.attributes,
            name: self.name@,
        }
    }
}

/// The records of a list, each as plain values.
pub open spec fn changes_of(records: Seq<UsnRecord>) -> Seq<Change> {
    records.map_values(|record: UsnRecord| record@)
}

/// The length that the record with which `data` begins gives for itself.
pub open spec fn usn_record_len(data: Seq<u8>) -> int {
    u32_from_le(data.subrange(0, 4)) as int
}

/// Where in its record the name begins.
pub open spec fn usn_name_offset(data: Seq<u8>) -> int {
    u16_from_le(data.subrange(58, 60)) as int
}

/// How many 16-bit units the name has.
pub open spec fn usn_name_units(data: Seq<u8>) -> int {
    u16_from_le(data.subrange(56, 58)) as int / 2
}

/// Whether the record with which `data` begins lies within `data`, and its
/// name within the record.
pub open spec fn usn_record_ok(data: Seq<u8>) -> bool {
    &&& data.len() >= USN_HEAD_BYTES
    &&& USN_HEAD_BYTES <= usn_record_len(data) <= data.len()
    &&& usn_name_offset(data) + 2 * usn_name_units(data) <= usn_record_len(data)
}

/// The 16-bit units that `bytes` holds, low byte first.
pub open spec fn le_units(bytes: Seq<u8>) -> Seq<u16> {
    Seq::new(bytes.len() / 2, |i: int| u16_from_le(bytes.subrange(2 * i, 2 * i + 2)))
}

/// The name that a record gets from the units of its name field: the text
/// they encode, or `unknown` if they are not UTF-16.
pub open spec fn name_of_units(units: Seq<u16>) -> Seq<char> {
    match utf16_text(units) {
        Some(text) => text,
        None => "unknown"@,
    }
}

/// The units of the name of the record with which `data` begins.
pub open spec fn usn_name_at(data: Seq<u8>) -> Seq<u16> {
    le_units(
        data.subrange(usn_name_offset(data), usn_name_offset(data) + 2 * usn_name_units(data)),
    )
}

/// The record with which `data` begins.
#[verifier::opaque]
pub open spec fn change_at(data: Seq<u8>) -> Change {
    Change {
        file_ref: u64_from_le(data.subrange(8, 16)),
        parent_ref: u64_from_le(data.subrange(16, 24)),
        usn: i64_of_bits(u64_from_le(data.subrange(24, 32))),
        reason: u32_from_le(data.subrange(40, 44)),
        attributes: u32_from_le(data.subrange(52, 56)),
        name: name_of_units(usn_name_at(data)),
    }
}

/// The records that `data` holds, one behind the other up to its end; none
/// if one of them does not lie within `data`.
pub open spec fn parse_changes(data: Seq<u8>) -> Option<Seq<Change>>
    decreases data.len(),
{
    if data.len() == 0 {
        Some(Seq::empty())
    } else if !usn_record_ok(data) {
        None
    } else {
        match parse_changes(data.skip(usn_record_len(data))) {
            Some(rest) => Some(seq![change_at(data)] + rest),
            None => None,
        }
    }
}

/// What a buffer of records holds.
pub struct BatchView {
    /// Where the next buffer is to start: a reference number when files are
    /// listed, a place in the journal when changes are read.
    pub cursor: u64,
    pub changes: Seq<Change>,
}

/// What the buffer `data` holds; nothing if it is shorter than the cursor
/// or one of its records does not lie within it.
pub open spec fn parse_batch(data: Seq<u8>) -> Option<BatchView> {
    if data.len() < CURSOR_BYTES {
        None
    } else {
        match parse_changes(data.skip(CURSOR_BYTES as int)) {
            Some(changes) => Some(BatchView { cursor: u64_from_le(data.subrange(0, 8)), changes }),
            None => None,
        }
    }
}

/// What a buffer of records holds.
pub struct Batch {
    pub cursor: u64,
    pub records: Vec<UsnRecord>,
}

impl View for Batch {
    type V = BatchView;

    open spec fn view(&self) -> BatchView {
        BatchView { cursor: self.cursor, changes: changes_of(self.records@) }
    }
}

/// The 16-bit units that lie in `data` from `from` on, `count` of them.
pub fn read_units(data: &[u8], from: usize, count: usize) -> (units: Vec<u16>)
    requires
        from + 2 * count <= data.len(),
    ensures
        units@ == le_units(data@.subrange(from as int, from + 2 * count)),
{
    let ghost field = data@.subrange(from as int, from + 2 * count);
    let mut units: Vec<u16> = Vec::new();
    let mut i: usize = 0;
    while i < count
        invariant
            i <= count,
            from + 2 * count <= data.len(),
            field == data@.subrange(from as int, from + 2 * count),
            units@.len() == i,
            forall|k: int| 0 <= k < i ==> units@[k] == le_units(field)[k],
        decreases count - i,
    {
        let unit = get_u16_le(data, from + 2 * i);
        units.push(unit);
        i = i + 1;
    }
    units
}

/// Reads the record that begins at `at`, and says where the next one
/// begins; nothing if the record does not lie within `data`.
pub fn read_change(data: &[u8], at: usize) -> (read: Option<(UsnRecord, usize)>)
    requires
        at < data.len(),
    ensures
        match read {
            Some(pair) => {
                &&& usn_record_ok(data@.skip(at as int))
                &&& pair.0@ == change_at(data@.skip(at as int))
                &&& pair.1 == at + usn_record_len(data@.skip(at as int))
                &&& at < pair.1 <= data.len()
            },
            None => !usn_record_ok(data@.skip(at as int)),
        },
{
    reveal(change_at);
    let n = data.len();
    let ghost here = data@.skip(at as int);
    if n - at < USN_HEAD_BYTES {
        return None;
    }
    let record_len = get_u32_le(data, at) as usize;
    let name_bytes = get_u16_le(data, at + 56) as usize;
    let name_offset = get_u16_le(data, at + 58) as usize;
    let name_units = name_bytes / 2;
    if record_len < USN_HEAD_BYTES || record_len > n - at {
        return None;
    }
    if name_offset + 2 * name_units > record_len {
        return None;
    }
    let file_ref = get_u64_le(data, at + 8);
    let parent_ref = get_u64_le(data, at + 16);
    let usn = i64_from_bits(get_u64_le(data, at + 24));
    let reason = get_u32_le(data, at + 40);
    let attributes = get_u32_le(data, at + 52);
    let units = read_units(data, at + name_offset, name_units);
    proof {
        assert(data@.subrange(at + name_offset, at + name_offset + 2 * name_units)
            =~= here.subrange(name_offset as int, name_offset + 2 * name_units));
    }
    let name = match text_from_utf16(&units) {
        Some(name) => name,
        None => String::from_str("unknown"),
    };
    Some((UsnRecord { file_ref, parent_ref, usn, reason, attributes, name }, at + record_len))
}

/// Reads a buffer of records as the file system fills it: the cursor, then
/// the records up to the end of the buffer. Gives nothing if the buffer is
/// shorter than the cursor or a record does not lie within it.
pub fn read_batch(data: &[u8]) -> (read: Option<Batch>)
    ensures
        match read {
            Some(batch) => parse_batch(data@) == Some(batch@),
            None => parse_batch(data@) is None,
        },
{
    let n = data.len();
    if n < CURSOR_BYTES {
        return None;
    }
    let cursor = get_u64_le(data, 0);
    let mut records: Vec<UsnRecord> = Vec::new();
    let mut at: usize = CURSOR_BYTES;
    while at < n
        invariant
            CURSOR_BYTES <= at <= n,
            n == data.len(),
            parse_changes(data@.skip(8)) == match parse_changes(data@.skip(at as int)) {
                Some(rest) => Some(changes_of(records@) + rest),
                None => None,
            },
        decreases n - at,
    {
        let ghost here = data@.skip(at as int);
        let (record, next) = match read_change(data, at) {
            Some(pair) => pair,
            None => {
                return None;
            },
        };
        records.push(record);
        assert(here.skip(usn_record_len(here)) =~= data@.skip(next as int));
        at = next;
    }
    Some(Batch { cursor, records })
}

/// How many 16-bit units the name of a name record has: the system writes
/// the length of the name in bytes, in 32 bits, and the name behind it.
pub open spec fn name_info_units(data: Seq<u8>) -> int {
    u32_from_le(data.subrange(0, 4)) as int / 2
}

/// The path that a name record holds: the text of its name; the empty text
/// if the name does not lie within the record or is not UTF-16.
pub open spec fn name_info_text(data: Seq<u8>) -> Seq<char> {
    if data.len() < 4 || data.len() - 4 < 2 * name_info_units(data) {
        Seq::empty()
    } else {
        match utf16_text(le_units(data.subrange(4, 4 + 2 * name_info_units(data)))) {
            Some(text) => text,
            None => Seq::empty(),
        }
    }
}

/// Reads the path of a directory from the name record that the system has
/// filled for it.
pub fn read_name_info(data: &[u8]) -> (path: String)
    ensures
        path@ == name_info_text(data@),
{
    let n = data.len();
    if n < 4 {
        return String::new();
    }
    let units = (get_u32_le(data, 0) / 2) as usize;
    if (n - 4) / 2 < units {
        return String::new();
    }
    let name = read_units(data, 4, units);
    match text_from_utf16(&name) {
        Some(path) => path,
        None => String::new(),
    }
}

/// Whether a record written for `reason` brings its file into the
/// catalogue (it was created, or this is its new name) or takes it out (it
/// was deleted, or this was its old name).
pub open spec fn adds(reason: u32) -> bool {
    reason & ADDING_REASONS != 0
}

/// The catalogue after one change. A file whose name is too long for the
/// catalogue does not enter it.
pub open spec fn apply_change(tree: Map<u64, Entry>, change: Change) -> Map<u64, Entry> {
    if adds(change.reason) {
        if name_fits(change.name) {
            tree.insert(change.file_ref, entry_of(change.name, change.parent_ref))
        } else {
            tree
        }
    } else {
        tree.remove(change.file_ref)
    }
}

/// The catalogue after the changes of `changes`, in their order.
pub open spec fn apply_changes(tree: Map<u64, Entry>, changes: Seq<Change>) -> Map<u64, Entry>
    decreases changes.len(),
{
    if changes.len() == 0 {
        tree
    } else {
        apply_change(apply_changes(tree, changes.drop_last()), changes.last())
    }
}

/// What a catalogue holds under `id`, if anything.
pub open spec fn lookup(tree: Map<u64, Entry>, id: u64) -> Option<Entry> {
    if tree.contains_key(id) {
        Some(tree[id])
    } else {
        None
    }
}

/// What the changes of `changes` leave under `id`, whatever was there
/// before: the entry or the gap that the last change to that file made;
/// `None` if no change touches the file.
pub open spec fn outcome(changes: Seq<Change>, id: u64) -> Option<Option<Entry>>
    decreases changes.len(),
{
    if changes.len() == 0 {
        None
    } else {
        let last = changes.last();
        if last.file_ref != id {
            outcome(changes.drop_last(), id)
        } else if !adds(last.reason) {
            Some(None)
        } else if name_fits(last.name) {
            Some(Some(entry_of(last.name, last.parent_ref)))
        } else {
            outcome(changes.drop_last(), id)
        }
    }
}

/// After a list of changes a file is what the last change to it made of it,
/// and what it was before if none touched it.
pub proof fn lemma_outcome(tree: Map<u64, Entry>, changes: Seq<Change>, id: u64)
    ensures
        lookup(apply_changes(tree, changes), id) == match outcome(changes, id) {
            Some(left) => left,
            None => lookup(tree, id),
        },
    decreases changes.len(),
{
    if changes.len() > 0 {
        lemma_outcome(tree, changes.drop_last(), id);
    }
}

/// Changes that are applied a second time change nothing: a catalogue that
/// has taken a stretch of the journal stays as it is when it takes the same
/// stretch again.
pub proof fn lemma_replay_changes_nothing(tree: Map<u64, Entry>, changes: Seq<Change>)
    ensures
        apply_changes(apply_changes(tree, changes), changes) == apply_changes(tree, changes),
{
    let once = apply_changes(tree, changes);
    let twice = apply_changes(once, changes);
    assert forall|id: u64| lookup(twice, id) == lookup(once, id) by {
        lemma_outcome(tree, changes, id);
        lemma_outcome(once, changes, id);
    }
    assert forall|id: u64| twice.contains_key(id) == once.contains_key(id) by {
        assert(lookup(twice, id) == lookup(once, id));
    }
    assert forall|id: u64| twice.contains_key(id) implies twice[id] == once[id] by {
        assert(lookup(twice, id) == lookup(once, id));
    }
}

/// Applying the changes of two lists one after the other is applying the
/// changes of the joined list.
pub proof fn lemma_apply_joined(tree: Map<u64, Entry>, first: Seq<Change>, second: Seq<Change>)
    ensures
        apply_changes(apply_changes(tree, first), second) == apply_changes(tree, first + second),
    decreases second.len(),
{
    if second.len() > 0 {
        lemma_apply_joined(tree, first, second.drop_last());
        assert((first + second).drop_last() =~= first + second.drop_last());
    }
}

/// Whether a record with these attributes is that of a directory.
pub open spec fn is_directory(attributes: u32) -> bool {
    attributes & FILE_ATTRIBUTE_DIRECTORY != 0
}

/// Whether a record with these attributes is that of a directory.
pub fn is_dir(attributes: u32) -> (dir: bool)
    ensures
        dir == is_directory(attributes),
{
    attributes & FILE_ATTRIBUTE_DIRECTORY != 0
}

/// Whether a record written for `reason` brings its file into the
/// catalogue.
pub fn is_adding(reason: u32) -> (adding: bool)
    ensures
        adding == adds(reason),
{
    reason & ADDING_REASONS != 0
}

/// Applies one change to the catalogue.
pub fn apply_record(tree: &mut FileTree, record: UsnRecord)
    ensures
        final(tree)@ == apply_change(old(tree)@, record@),
{
    if is_adding(record.reason) {
        let _ = tree.insert(record.file_ref, record.name, record.parent_ref);
    } else {
        tree.remove(record.file_ref);
    }
}

/// Applies the changes of `records` to the catalogue, in their order.
pub fn apply_records(tree: &mut FileTree, records: Vec<UsnRecord>)
    ensures
        final(tree)@ == apply_changes(old(tree)@, changes_of(records@)),
{
    let ghost given = changes_of(records@);
    let ghost all = records@;
    for record in it: records
        invariant
            it.seq() == all,
            given == changes_of(all),
            tree@ == apply_changes(old(tree)@, given.take(it.index() as int)),
    {
        let ghost done = it.index();
        assert(given.take(done + 1).drop_last() =~= given.take(done as int));
        apply_record(tree, record);
    }
    assert(given.take(all.len() as int) =~= given);
}

} // verus!
