//! The catalogue of one volume: every file under its reference number, with
//! the number of the directory that holds it, so that a path is the walk
//! from a file up to the root.

use crate::text::{filter_of, lowercase, make_filter, to_lowercase};
use std::collections::BTreeMap;
use vstd::prelude::*;
use vstd::std_specs::btree::{group_btree_axioms, increasing_seq};
use vstd::std_specs::cmp::OrdSpec;
use vstd::std_specs::iter::IteratorSpec;
use vstd::string::StringExecFns;
use vstd::utf8::encode_utf8;

verus! {

/// The longest name, in bytes of UTF-8, that a catalogue holds: a snapshot
/// writes the length of a name in 16 bits.
pub const MAX_NAME_BYTES: usize = 0xFFFF;

/// The reference number that stands for "no directory": the parent of a
/// root.
pub const NO_PARENT: u64 = 0;

/// What stands behind each name of a path.
pub const SEPARATOR: char = '\\';

/// What a `FileEntry` holds, as plain values.
pub struct Entry {
    pub parent_id: u64,
    pub name: Seq<char>,
    pub quick_filter: u32,
    pub rank: i8,
}

/// One file or directory of a volume.
pub struct FileEntry {
    /// The reference number of the directory that holds it.
    pub parent_id: u64,
    pub name: String,
    /// The filter of the name in lower case.
    pub quick_filter: u32,
    pub rank: i8,
}

impl View for FileEntry {
    type V = Entry;

    open spec fn view(&self) -> Entry {
        Entry {
            parent_id: self.parent_id,
            name: self.name@,
            quick_filter: self.quick_filter,
            rank: self.rank,
        }
    }
}

/// Whether a name is short enough for a catalogue.
pub open spec fn name_fits(name: Seq<char>) -> bool {
    encode_utf8(name).len() <= MAX_NAME_BYTES
}

/// Whether every name of a catalogue is short enough for it.
pub open spec fn storable(tree: Map<u64, Entry>) -> bool {
    forall|id: u64| tree.contains_key(id) ==> name_fits(#[trigger] tree[id].name)
}

/// The entry that `insert` makes of a name and its directory.
pub open spec fn entry_of(name: Seq<char>, parent_id: u64) -> Entry {
    Entry {
        parent_id,
        name,
        quick_filter: filter_of(encode_utf8(lowercase(name))),
        rank: 0,
    }
}

/// The path of the file `id` as far as `steps` links lead: the names from
/// the root down to the file, each followed by the separator. There is none
/// if a link leads to a file that the catalogue does not hold, or if the
/// root is not reached within `steps` links.
pub open spec fn path_within(tree: Map<u64, Entry>, id: u64, steps: nat) -> Option<Seq<char>>
    decreases steps,
{
    if id == NO_PARENT {
        Some(Seq::empty())
    } else if steps == 0 || !tree.contains_key(id) {
        None
    } else {
        match path_within(tree, tree[id].parent_id, (steps - 1) as nat) {
            Some(above) => Some(above + tree[id].name + seq![SEPARATOR]),
            None => None,
        }
    }
}

/// The path of the file `id`. A walk that has taken as many links as the
/// catalogue has files goes in a circle, and there is no path then.
pub open spec fn path_of(tree: Map<u64, Entry>, id: u64) -> Option<Seq<char>> {
    path_within(tree, id, tree.len())
}

/// The names of `names` from the last to the first, each followed by the
/// separator.
pub open spec fn joined(names: Seq<Seq<char>>) -> Seq<char>
    decreases names.len(),
{
    if names.len() == 0 {
        Seq::empty()
    } else {
        names.last() + seq![SEPARATOR] + joined(names.drop_last())
    }
}

/// The names of a walk's entries.
pub open spec fn names_of(walk: Seq<&FileEntry>) -> Seq<Seq<char>> {
    walk.map_values(|entry: &FileEntry| entry.name@)
}

/// Whether `records` lists the files of `tree`, each once, in ascending
/// order of reference number.
pub open spec fn lists(tree: Map<u64, Entry>, records: Seq<(u64, Entry)>) -> bool {
    &&& forall|i: int, j: int| 0 <= i < j < records.len() ==> records[i].0 < records[j].0
    &&& forall|i: int|
        0 <= i < records.len() ==> tree.contains_key(#[trigger] records[i].0) && tree[records[i].0]
            == records[i].1
    &&& forall|id: u64|
        tree.contains_key(id) ==> exists|i: int| 0 <= i < records.len() && #[trigger] records[i].0 == id
}

/// The records of a list, each as plain values.
pub open spec fn records_of(list: Seq<(u64, &FileEntry)>) -> Seq<(u64, Entry)> {
    list.map_values(|record: (u64, &FileEntry)| (record.0, record.1@))
}

/// Whether `walk` leads from a file up to a root of `tree`: each file lies
/// in the directory that follows it, the last one in none, and no file
/// comes twice.
pub open spec fn is_walk(tree: Map<u64, Entry>, walk: Seq<u64>) -> bool {
    &&& walk.len() >= 1
    &&& walk.no_duplicates()
    &&& forall|i: int|
        0 <= i < walk.len() ==> #[trigger] walk[i] != NO_PARENT && tree.contains_key(walk[i])
    &&& forall|i: int| 0 <= i < walk.len() - 1 ==> #[trigger] tree[walk[i]].parent_id == walk[i + 1]
    &&& tree[walk.last()].parent_id == NO_PARENT
}

/// The names of the files of a walk.
pub open spec fn walk_names(tree: Map<u64, Entry>, walk: Seq<u64>) -> Seq<Seq<char>> {
    walk.map_values(|id: u64| tree[id].name)
}

/// The joined names of a list are those of the list without its first name,
/// followed by that name and the separator.
pub proof fn lemma_joined_first(names: Seq<Seq<char>>)
    requires
        names.len() >= 1,
    ensures
        joined(names) == joined(names.drop_first()) + names[0] + seq![SEPARATOR],
    decreases names.len(),
{
    if names.len() == 1 {
        assert(names.drop_first() =~= Seq::empty());
        assert(names.drop_last() =~= Seq::empty());
        assert(joined(names.drop_first()) + names[0] + seq![SEPARATOR] =~= names[0]
            + seq![SEPARATOR]);
    } else {
        lemma_joined_first(names.drop_last());
        assert(names.drop_last().drop_first() =~= names.drop_first().drop_last());
    }
}

/// A walk of `steps` links or fewer gives the path of its first file: the
/// names from the root down, each followed by the separator.
proof fn lemma_walk_within(tree: Map<u64, Entry>, walk: Seq<u64>, steps: nat)
    requires
        is_walk(tree, walk),
        walk.len() <= steps,
    ensures
        path_within(tree, walk[0], steps) == Some(joined(walk_names(tree, walk))),
    decreases walk.len(),
{
    let names = walk_names(tree, walk);
    lemma_joined_first(names);
    if walk.len() == 1 {
        assert(path_within(tree, NO_PARENT, (steps - 1) as nat) == Some(Seq::<char>::empty()));
    } else {
        let rest = walk.drop_first();
        assert(is_walk(tree, rest));
        lemma_walk_within(tree, rest, (steps - 1) as nat);
        assert(walk_names(tree, rest) =~= names.drop_first());
    }
}

/// A walk has no more files than the catalogue it leads through.
proof fn lemma_walk_len(tree: Map<u64, Entry>, walk: Seq<u64>)
    requires
        tree.dom().finite(),
        is_walk(tree, walk),
    ensures
        walk.len() <= tree.len(),
{
    walk.unique_seq_to_set();
    assert(walk.to_set().subset_of(tree.dom())) by {
        assert forall|id: u64| walk.to_set().contains(id) implies tree.dom().contains(id) by {
            let i = choose|i: int| 0 <= i < walk.len() && walk[i] == id;
        }
    }
    vstd::set_lib::lemma_len_subset(walk.to_set(), tree.dom());
}

/// Where a walk without a circle leads from a file to a root, the path of
/// that file is made of the names of the walk from the root down, each
/// followed by the separator.
pub proof fn lemma_path_of_walk(tree: Map<u64, Entry>, walk: Seq<u64>)
    requires
        tree.dom().finite(),
        is_walk(tree, walk),
    ensures
        path_of(tree, walk[0]) == Some(joined(walk_names(tree, walk))),
{
    lemma_walk_len(tree, walk);
    lemma_walk_within(tree, walk, tree.len());
}

/// Removing a file that is not on the walk from another file to the root
/// leaves the path of that other file as it was.
pub proof fn lemma_remove_keeps_other_paths(tree: Map<u64, Entry>, walk: Seq<u64>, gone: u64)
    requires
        tree.dom().finite(),
        is_walk(tree, walk),
        !walk.contains(gone),
    ensures
        path_of(tree.remove(gone), walk[0]) == path_of(tree, walk[0]),
{
    let after = tree.remove(gone);
    assert(walk_names(after, walk) =~= walk_names(tree, walk));
    lemma_path_of_walk(tree, walk);
    lemma_path_of_walk(after, walk);
}

/// Putting a file under a number that is not on the walk from another file
/// to the root leaves the path of that other file as it was.
pub proof fn lemma_insert_keeps_other_paths(
    tree: Map<u64, Entry>,
    walk: Seq<u64>,
    id: u64,
    entry: Entry,
)
    requires
        tree.dom().finite(),
        is_walk(tree, walk),
        !walk.contains(id),
    ensures
        path_of(tree.insert(id, entry), walk[0]) == path_of(tree, walk[0]),
{
    let after = tree.insert(id, entry);
    assert(walk_names(after, walk) =~= walk_names(tree, walk));
    lemma_path_of_walk(tree, walk);
    lemma_path_of_walk(after, walk);
}

/// Removing a file takes the path from everything that lay under it: what
/// it held stays in the catalogue, cut off from the root.
pub proof fn lemma_remove_cuts_paths_below(tree: Map<u64, Entry>, walk: Seq<u64>, gone: u64)
    requires
        is_walk(tree, walk),
        walk.contains(gone),
    ensures
        path_of(tree.remove(gone), walk[0]) is None,
{
    let k = choose|k: int| 0 <= k < walk.len() && walk[k] == gone;
    lemma_cut_within(tree, walk, k, tree.remove(gone).len());
}

proof fn lemma_cut_within(tree: Map<u64, Entry>, walk: Seq<u64>, k: int, steps: nat)
    requires
        walk.len() >= 1,
        walk.no_duplicates(),
        forall|i: int|
            0 <= i < walk.len() ==> #[trigger] walk[i] != NO_PARENT && tree.contains_key(walk[i]),
        forall|i: int| 0 <= i < walk.len() - 1 ==> #[trigger] tree[walk[i]].parent_id == walk[i + 1],
        0 <= k < walk.len(),
    ensures
        path_within(tree.remove(walk[k]), walk[0], steps) is None,
    decreases k,
{
    if k > 0 && steps > 0 {
        lemma_cut_within(tree, walk.drop_first(), k - 1, (steps - 1) as nat);
    }
}

/// The order in which a `BTreeMap` hands out its keys, for reference
/// numbers: each is lower than those that follow.
proof fn lemma_increasing(keys: Seq<u64>)
    requires
        increasing_seq(keys),
    ensures
        forall|i: int, j: int| 0 <= i < j < keys.len() ==> keys[i] < keys[j],
{
    broadcast use group_btree_axioms;

    assert forall|i: int, j: int| 0 <= i < j < keys.len() implies keys[i] < keys[j] by {
        assert(keys[i].cmp_spec(&keys[j]) is Less);
    }
}

/// The files of one volume by reference number.
pub struct FileTree {
    entries: BTreeMap<u64, FileEntry>,
}

impl View for FileTree {
    type V = Map<u64, Entry>;

    closed spec fn view(&self) -> Map<u64, Entry> {
        self.entries@.map_values(|entry: FileEntry| entry@)
    }
}

impl FileTree {
    #[verifier::type_invariant]
    spec fn valid(&self) -> bool {
        storable(self@)
    }

    /// An empty catalogue.
    pub fn new() -> (tree: FileTree)
        ensures
            tree@ == Map::<u64, Entry>::empty(),
    {
        let tree = FileTree { entries: BTreeMap::new() };
        tree
    }

    /// Whether the catalogue holds no file.
    pub fn is_empty(&self) -> (empty: bool)
        ensures
            empty == (self@.len() == 0),
            empty == (self@ == Map::<u64, Entry>::empty()),
    {
        broadcast use group_btree_axioms;

        assert(self@.dom() =~= self.entries@.dom());
        let empty = self.entries.is_empty();
        if empty {
            assert(self@ =~= Map::<u64, Entry>::empty());
        }
        empty
    }

    /// The number of files.
    pub fn len(&self) -> (n: usize)
        ensures
            n == self@.len(),
            self@.dom().finite(),
    {
        broadcast use group_btree_axioms;

        assert(self@.dom() =~= self.entries@.dom());
        self.entries.len()
    }

    /// Drops every file.
    pub fn clear(&mut self)
        ensures
            final(self)@ == Map::<u64, Entry>::empty(),
    {
        self.entries = BTreeMap::new();
    }

    /// The entry of the file `ref_id`, if the catalogue holds it.
    pub fn get(&self, ref_id: u64) -> (found: Option<&FileEntry>)
        ensures
            match found {
                Some(entry) => self@.contains_key(ref_id) && self@[ref_id] == entry@,
                None => !self@.contains_key(ref_id),
            },
    {
        broadcast use group_btree_axioms;

        self.entries.get(&ref_id)
    }

    /// Puts `entry` under `ref_id`, in place of what was there, if its name
    /// is short enough; says whether it did.
    pub fn insert_simple(&mut self, ref_id: u64, entry: FileEntry) -> (stored: bool)
        ensures
            stored == name_fits(entry@.name),
            final(self)@ == if stored {
                old(self)@.insert(ref_id, entry@)
            } else {
                old(self)@
            },
    {
        broadcast use group_btree_axioms;

        proof {
            use_type_invariant(&*self);
        }
        if entry.name.as_str().as_bytes().len() > MAX_NAME_BYTES {
            return false;
        }
        let ghost before = self@;
        let mut entries: BTreeMap<u64, FileEntry> = BTreeMap::new();
        core::mem::swap(&mut self.entries, &mut entries);
        entries.insert(ref_id, entry);
        assert(entries@.map_values(|e: FileEntry| e@) =~= before.insert(ref_id, entry@));
        self.entries = entries;
        true
    }

    /// Puts the file `name`, which lies in the directory `parent_ref_id`,
    /// under `ref_id`, in place of what was there, if its name is short
    /// enough; says whether it did. The entry gets the filter of its name
    /// and the rank 0.
    pub fn insert(&mut self, ref_id: u64, name: String, parent_ref_id: u64) -> (stored: bool)
        ensures
            stored == name_fits(name@),
            final(self)@ == if stored {
                old(self)@.insert(ref_id, entry_of(name@, parent_ref_id))
            } else {
                old(self)@
            },
    {
        let lower = to_lowercase(name.as_str());
        let quick_filter = make_filter(lower.as_str().as_bytes());
        self.insert_simple(
            ref_id,
            FileEntry { parent_id: parent_ref_id, name, quick_filter, rank: 0 },
        )
    }

    /// Drops the file `ref_id`, if the catalogue holds it. What lies under
    /// it stays.
    pub fn remove(&mut self, ref_id: u64)
        ensures
            final(self)@ == old(self)@.remove(ref_id),
    {
        broadcast use group_btree_axioms;

        proof {
            use_type_invariant(&*self);
        }
        let ghost before = self@;
        let mut entries: BTreeMap<u64, FileEntry> = BTreeMap::new();
        core::mem::swap(&mut self.entries, &mut entries);
        let _ = entries.remove(&ref_id);
        assert(entries@.map_values(|e: FileEntry| e@) =~= before.remove(ref_id));
        self.entries = entries;
    }

    /// The files in ascending order of reference number.
    pub fn entries(&self) -> (list: Vec<(u64, &FileEntry)>)
        ensures
            lists(self@, records_of(list@)),
            list@.len() == self@.len(),
            storable(self@),
    {
        broadcast use group_btree_axioms;

        proof {
            use_type_invariant(self);
        }
        let ghost all = self.entries.iter().remaining();
        let mut list: Vec<(u64, &FileEntry)> = Vec::new();
        for pair in it: self.entries.iter()
            invariant
                it.seq() == all,
                list@.len() == it.index(),
                forall|i: int|
                    0 <= i < list@.len() ==> #[trigger] list@[i] == (*all[i].0, all[i].1),
        {
            list.push((*pair.0, pair.1));
        }
        proof {
            let keys = all.map_values(|kv: (&u64, &FileEntry)| *kv.0);
            let records = records_of(list@);
            assert(self@.dom() =~= self.entries@.dom());
            lemma_increasing(keys);
            assert forall|i: int, j: int| 0 <= i < j < records.len() implies records[i].0
                < records[j].0 by {
                assert(keys[i] == records[i].0);
                assert(keys[j] == records[j].0);
            }
            assert forall|id: u64| self@.contains_key(id) implies exists|i: int|
                0 <= i < records.len() && #[trigger] records[i].0 == id by {
                let pair = (&id, &self.entries@[id]);
                let i = choose|i: int| 0 <= i < all.len() && all[i] == pair;
                assert(records[i].0 == id);
            }
        }
        list
    }

    /// The path of the file `ref_id`: the names from the root down to it,
    /// each followed by the separator; `None` if a link of the walk to the
    /// root is missing.
    pub fn get_path(&self, ref_id: u64) -> (path: Option<String>)
        ensures
            match path {
                Some(text) => path_of(self@, ref_id) == Some(text@),
                None => path_of(self@, ref_id) is None,
            },
    {
        let limit = self.len();
        let mut walk: Vec<&FileEntry> = Vec::new();
        let mut id = ref_id;
        while id != NO_PARENT
            invariant
                walk@.len() <= limit == self@.len(),
                path_of(self@, ref_id) == match path_within(
                    self@,
                    id,
                    (limit - walk@.len()) as nat,
                ) {
                    Some(above) => Some(above + joined(names_of(walk@))),
                    None => None,
                },
            decreases limit - walk@.len(),
        {
            if walk.len() == limit {
                return None;
            }
            match self.get(id) {
                None => {
                    return None;
                },
                Some(entry) => {
                    let ghost before = walk@;
                    walk.push(entry);
                    proof {
                        assert(names_of(walk@).drop_last() =~= names_of(before));
                        let left = limit - walk@.len();
                        match path_within(self@, entry.parent_id, left as nat) {
                            Some(above) => {
                                assert(above + self@[id].name + seq![SEPARATOR] + joined(
                                    names_of(before),
                                ) =~= above + joined(names_of(walk@)));
                            },
                            None => {},
                        }
                    }
                    id = entry.parent_id;
                },
            }
        }
        let mut text = String::new();
        let mut i = walk.len();
        assert(walk@.take(i as int) =~= walk@);
        while i > 0
            invariant
                i <= walk@.len(),
                text@ + joined(names_of(walk@.take(i as int))) == joined(names_of(walk@)),
            decreases i,
        {
            i = i - 1;
            let ghost before = text@;
            text.append(walk[i].name.as_str());
            text.append("\\");
            proof {
                reveal_strlit("\\");
                let names = names_of(walk@.take(i + 1));
                assert(names.drop_last() =~= names_of(walk@.take(i as int)));
            }
        }
        Some(text)
    }
}

} // verus!
