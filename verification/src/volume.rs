//! One drive: its catalogue, its search index and its place in the change
//! journal; and what a search hands back.

use crate::codec::{i64_from_bits, i64_of_bits};
use crate::file_tree::{entry_of, Entry, FileTree, SEPARATOR};
use crate::journal::{
    apply_changes, apply_records, is_dir, is_directory, lemma_replay_changes_nothing, parse_batch,
    read_batch, UsnRecord, CURSOR_BYTES,
};
use crate::search_index::{found_of, search_result, stop_requested, FileView, Found, SearchIndex};
use crate::snapshot::{
    listing, parse_snapshot, read_snapshot, snapshot_bytes, tree_of, write_snapshot, DecodeError,
    Snapshot,
};
use crate::text::{extension, extension_of, lowercase, push_char, to_lowercase};
use std::sync::mpsc::Receiver;
use vstd::prelude::*;
use vstd::string::StringExecFns;

verus! {

/// What a `SearchResultItem` holds, as plain values.
pub struct Hit {
    pub path: Seq<char>,
    pub file_name: Seq<char>,
    pub rank: i8,
}

/// One file found by a query.
pub struct SearchResultItem {
    pub path: String,
    pub file_name: String,
    pub rank: i8,
}

impl View for SearchResultItem {
    type V = Hit;

    open spec fn view(&self) -> Hit {
        Hit { path: self.path@, file_name: self.file_name@, rank: self.rank }
    }
}

impl Clone for SearchResultItem {
    fn clone(&self) -> (copy: Self)
        ensures
            copy == *self,
    {
        SearchResultItem {
            path: self.path.clone(),
            file_name: self.file_name.clone(),
            rank: self.rank,
        }
    }
}

/// The items of a list, each as plain values.
pub open spec fn hits(items: Seq<SearchResultItem>) -> Seq<Hit> {
    items.map_values(|item: SearchResultItem| item@)
}

/// The items found for one query.
pub struct SearchResult {
    pub items: Vec<SearchResultItem>,
    pub query: String,
}

/// How many items one volume finds at most for a query.
pub const VOLUME_LIMIT: usize = 10;

/// The reference number of the root directory of a volume.
pub const ROOT_FRN: u64 = 0x5_0000_0000_0005;

/// A `Volume` as plain values.
pub struct VolumeView {
    /// The drive letter.
    pub drive: char,
    /// The journal that the cursor belongs to.
    pub journal_id: u64,
    /// The place in the journal up to which the catalogue is current.
    pub start_usn: i64,
    /// The catalogue.
    pub tree: Map<u64, Entry>,
    /// The search index.
    pub index: Seq<Found>,
}

/// What is to be done after a buffer of the change journal was taken.
#[derive(Clone, Copy, Debug, PartialEq, Eq, Structural)]
pub enum UpdateStep {
    /// The buffer held changes: they are applied, and the journal is to be
    /// read on from the new cursor.
    More,
    /// The buffer held the cursor alone: the catalogue is current.
    Done,
    /// The buffer could not be read: nothing was applied.
    Failed,
}

/// The name of the root directory of a drive: its letter and a colon.
pub open spec fn root_name(drive: char) -> Seq<char> {
    seq![drive, ':']
}

/// The full path of a file: the drive's letter and a colon, the path of its
/// directory, the separator, its name.
pub open spec fn full_path(drive: char, parent_path: Seq<char>, name: Seq<char>) -> Seq<char> {
    root_name(drive) + parent_path + seq![SEPARATOR] + name
}

/// The items that a volume makes of the files it found: each with its full
/// path, its name and the rank 0.
pub open spec fn items_of(found: Seq<Found>) -> Seq<Hit> {
    found.map_values(|file: Found| Hit { path: file.abs_path, file_name: file.name, rank: 0 })
}

/// The files that a buffer of listed files adds to an index: each record
/// with the path of its directory, as a file of that name under the full
/// path, a directory if its attributes say so, with the extension of its
/// name; in the order of the buffer.
pub open spec fn listed(drive: char, files: Seq<(UsnRecord, String)>) -> Seq<Found> {
    files.map_values(
        |file: (UsnRecord, String)|
            Found {
                name: file.0.name@,
                abs_path: full_path(drive, file.1@, file.0.name@),
                is_dir: is_directory(file.0.attributes),
                extension: extension_of(file.0.name@),
            },
    )
}

/// The volume after the buffer `data` of the change journal was taken, and
/// what is to be done next.
pub open spec fn update_step(v: VolumeView, data: Seq<u8>) -> (VolumeView, UpdateStep) {
    match parse_batch(data) {
        None => (v, UpdateStep::Failed),
        Some(batch) => if data.len() == CURSOR_BYTES {
            (v, UpdateStep::Done)
        } else {
            (
                VolumeView {
                    tree: apply_changes(v.tree, batch.changes),
                    start_usn: i64_of_bits(batch.cursor),
                    ..v
                },
                UpdateStep::More,
            )
        },
    }
}

/// A buffer of the journal that is taken a second time leaves the
/// catalogue as the first time left it.
pub proof fn lemma_update_replay(v: VolumeView, data: Seq<u8>)
    ensures
        update_step(update_step(v, data).0, data).0.tree == update_step(v, data).0.tree,
        update_step(update_step(v, data).0, data).1 == update_step(v, data).1,
{
    match parse_batch(data) {
        Some(batch) => {
            lemma_replay_changes_nothing(v.tree, batch.changes);
        },
        None => {},
    }
}

/// One drive: its catalogue, its search index, its place in the change
/// journal, and the channel on which it is told to stop a search.
pub struct Volume {
    pub drive: char,
    journal_id: u64,
    start_usn: i64,
    file_map: FileTree,
    file_index: SearchIndex,
    stop_receiver: Receiver<()>,
}

impl View for Volume {
    type V = VolumeView;

    closed spec fn view(&self) -> VolumeView {
        VolumeView {
            drive: self.drive,
            journal_id: self.journal_id,
            start_usn: self.start_usn,
            tree: self.file_map@,
            index: self.file_index@,
        }
    }
}

/// The text made of a drive's letter and a colon.
pub fn root_text(drive: char) -> (text: String)
    ensures
        text@ == root_name(drive),
{
    let mut text = String::new();
    push_char(&mut text, drive);
    push_char(&mut text, ':');
    text
}

/// The full path of the file `name` in the directory whose path on the
/// drive is `parent_path`.
pub fn full_path_text(drive: char, parent_path: &str, name: &str) -> (text: String)
    ensures
        text@ == full_path(drive, parent_path@, name@),
{
    let mut text = root_text(drive);
    text.append(parent_path);
    push_char(&mut text, SEPARATOR);
    text.append(name);
    text
}

/// The files that were found, as items.
pub fn to_items(found: Vec<FileView>) -> (items: Vec<SearchResultItem>)
    ensures
        hits(items@) == items_of(found_of(found@)),
{
    let ghost all = found@;
    let mut items: Vec<SearchResultItem> = Vec::new();
    for file in it: found
        invariant
            it.seq() == all,
            items@.len() == it.index(),
            forall|k: int| 0 <= k < items@.len() ==> (#[trigger] items@[k])@ == items_of(found_of(all))[k],
    {
        items.push(SearchResultItem { path: file.abs_path, file_name: file.name, rank: 0 });
    }
    items
}

impl Volume {
    /// The volume of a drive, with nothing in its catalogue and nothing in
    /// its index; on `stop_receiver` it will be told to stop a search.
    pub fn new(drive: char, stop_receiver: Receiver<()>) -> (volume: Volume)
        ensures
            volume@ == (VolumeView {
                drive,
                journal_id: 0,
                start_usn: 0,
                tree: Map::empty(),
                index: Seq::empty(),
            }),
    {
        Volume {
            drive,
            journal_id: 0,
            start_usn: 0,
            file_map: FileTree::new(),
            file_index: SearchIndex::new(),
            stop_receiver,
        }
    }

    /// The place in the journal up to which the catalogue is current.
    pub fn start_usn(&self) -> (usn: i64)
        ensures
            usn == self@.start_usn,
    {
        self.start_usn
    }

    /// The journal that the cursor belongs to.
    pub fn journal_id(&self) -> (id: u64)
        ensures
            id == self@.journal_id,
    {
        self.journal_id
    }

    /// The catalogue.
    pub fn file_map(&self) -> (tree: &FileTree)
        ensures
            tree@ == self@.tree,
    {
        &self.file_map
    }

    /// The search index.
    pub fn file_index(&self) -> (index: &SearchIndex)
        ensures
            index@ == self@.index,
    {
        &self.file_index
    }

    /// Begins a build: the catalogue holds the root directory alone, the
    /// index nothing, and the place in the journal is the one given, from
    /// which later changes will be read.
    pub fn begin_build(&mut self, journal_id: u64, next_usn: i64)
        ensures
            final(self)@ == (VolumeView {
                drive: old(self)@.drive,
                journal_id,
                start_usn: next_usn,
                tree: Map::<u64, Entry>::empty().insert(
                    ROOT_FRN,
                    entry_of(root_name(old(self)@.drive), 0),
                ),
                index: Seq::empty(),
            }),
    {
        self.journal_id = journal_id;
        self.start_usn = next_usn;
        self.file_map.clear();
        self.file_index = SearchIndex::new();
        let root = root_text(self.drive);
        proof {
            vstd::utf8::encode_utf8_first_scalar(root@);
            reveal_with_fuel(vstd::utf8::encode_utf8, 3);
        }
        let stored = self.file_map.insert(ROOT_FRN, root, 0);
    }

    /// Takes the files of one buffer of the volume's listing, each with the
    /// path of its directory, into the index.
    pub fn build_index(&mut self, files: Vec<(UsnRecord, String)>)
        ensures
            final(self)@ == (VolumeView {
                index: old(self)@.index + listed(old(self)@.drive, files@),
                ..old(self)@
            }),
    {
        let ghost all = files@;
        let ghost given = listed(self.drive, all);
        for file in it: files
            invariant
                it.seq() == all,
                given == listed(self.drive, all),
                self@ == (VolumeView {
                    index: old(self)@.index + given.take(it.index() as int),
                    ..old(self)@
                }),
        {
            let ghost done = it.index();
            let (record, parent_path) = file;
            let path = full_path_text(self.drive, parent_path.as_str(), record.name.as_str());
            let dir = is_dir(record.attributes);
            let ext = extension(record.name.as_str());
            self.file_index.add(record.name, path, dir, ext);
            assert(old(self)@.index + given.take(done + 1) =~= (old(self)@.index + given.take(
                done as int,
            )).push(given[done as int]));
        }
        assert(given.take(all.len() as int) =~= given);
    }

    /// Drops the catalogue from memory; the index stays.
    pub fn release_index(&mut self)
        ensures
            final(self)@ == (VolumeView { tree: Map::empty(), ..old(self)@ }),
    {
        if self.file_map.is_empty() {
            return ;
        }
        self.file_map.clear();
    }

    /// Answers a query: the first `VOLUME_LIMIT` files of the index whose
    /// names hold every fragment of the query in lower case, as items.
    /// Nothing is returned for an empty query. Requests to stop that came
    /// before the query are taken away; one that comes while the files are
    /// compared ends the search, which then returns nothing: no part of what
    /// it had found.
    pub fn find(&self, query: &str) -> (items: Option<Vec<SearchResultItem>>)
        ensures
            query@.len() == 0 ==> items is None,
            items matches Some(list) ==> hits(list@) == items_of(
                search_result(self@.index, lowercase(query@), VOLUME_LIMIT as int),
            ),
    {
        if query.is_empty() {
            return None;
        }
        let mut pending: usize = usize::MAX;
        while pending > 0 && stop_requested(&self.stop_receiver)
            decreases pending,
        {
            pending = pending - 1;
        }
        let query_lower = to_lowercase(query);
        match self.file_index.search_until(query_lower.as_str(), VOLUME_LIMIT, &self.stop_receiver) {
            Some(found) => Some(to_items(found)),
            None => None,
        }
    }

    /// Whether the catalogue is out of memory and has to be loaded before
    /// changes can be applied to it.
    pub fn is_released(&self) -> (released: bool)
        ensures
            released == (self@.tree == Map::<u64, Entry>::empty()),
    {
        self.file_map.is_empty()
    }

    /// Takes one buffer of the change journal. A buffer that holds changes
    /// has them applied in their order, files created or renamed to a name
    /// entering the catalogue and files deleted or renamed from a name
    /// leaving it, and moves the cursor to where the buffer says; a buffer
    /// of the cursor alone ends the update; one that cannot be read changes
    /// nothing.
    pub fn update_index(&mut self, data: &[u8]) -> (step: UpdateStep)
        ensures
            (final(self)@, step) == update_step(old(self)@, data@),
    {
        let batch = match read_batch(data) {
            Some(batch) => batch,
            None => {
                return UpdateStep::Failed;
            },
        };
        if data.len() == CURSOR_BYTES {
            return UpdateStep::Done;
        }
        apply_records(&mut self.file_map, batch.records);
        self.start_usn = i64_from_bits(batch.cursor);
        UpdateStep::More
    }

    /// The snapshot of the catalogue and the place in the journal; the
    /// catalogue stays in memory. An empty catalogue gives the eight bytes
    /// of the place in the journal. What is written reads back as the same
    /// catalogue at the same place.
    pub fn snapshot(&self) -> (written: Vec<u8>)
        ensures
            written@ == snapshot_bytes(
                Snapshot { start_usn: self@.start_usn, records: listing(self@.tree) },
            ),
            parse_snapshot(written@) == Ok::<Snapshot, DecodeError>(
                Snapshot { start_usn: self@.start_usn, records: listing(self@.tree) },
            ),
            tree_of(listing(self@.tree)) == self@.tree,
    {
        write_snapshot(self.start_usn, &self.file_map)
    }

    /// The snapshot of the catalogue, which then leaves memory.
    pub fn serialization_write(&mut self) -> (written: Vec<u8>)
        ensures
            final(self)@ == (VolumeView { tree: Map::empty(), ..old(self)@ }),
            written@ == snapshot_bytes(
                Snapshot { start_usn: old(self)@.start_usn, records: listing(old(self)@.tree) },
            ),
            parse_snapshot(written@) == Ok::<Snapshot, DecodeError>(
                Snapshot { start_usn: old(self)@.start_usn, records: listing(old(self)@.tree) },
            ),
            tree_of(listing(old(self)@.tree)) == old(self)@.tree,
    {
        let written = self.snapshot();
        self.release_index();
        written
    }

    /// Loads the catalogue and the place in the journal from a snapshot. A
    /// snapshot that cannot be read leaves the volume as it is.
    pub fn serialization_read(&mut self, data: &[u8]) -> (read: Result<(), DecodeError>)
        ensures
            match parse_snapshot(data@) {
                Ok(snapshot) => read is Ok && final(self)@ == (VolumeView {
                    start_usn: snapshot.start_usn,
                    tree: tree_of(snapshot.records),
                    ..old(self)@
                }),
                Err(e) => read == Err::<(), DecodeError>(e) && final(self)@ == old(self)@,
            },
    {
        match read_snapshot(data) {
            Ok((start_usn, tree)) => {
                self.start_usn = start_usn;
                self.file_map = tree;
                Ok(())
            },
            Err(e) => Err(e),
        }
    }

    /// Brings the catalogue into memory from the snapshot that was found for
    /// the drive, if one was found. Says whether the volume has to be built
    /// anew: there is no snapshot, or it cannot be read; the volume is then
    /// as it was.
    pub fn load(&mut self, snapshot: Option<&[u8]>) -> (rebuild: bool)
        ensures
            rebuild == (snapshot is None || parse_snapshot(snapshot->0@) is Err),
            match snapshot {
                Some(data) => match parse_snapshot(data@) {
                    Ok(read) => final(self)@ == (VolumeView {
                        start_usn: read.start_usn,
                        tree: tree_of(read.records),
                        ..old(self)@
                    }),
                    Err(_) => final(self)@ == old(self)@,
                },
                None => final(self)@ == old(self)@,
            },
    {
        match snapshot {
            Some(data) => self.serialization_read(data).is_err(),
            None => true,
        }
    }
}

} // verus!
