//! The search index of one volume: every file with its name and its full
//! path, in the order in which the files were added, and the query that
//! finds the first files whose names hold every fragment of a text.

use std::sync::mpsc::Receiver;

use crate::text::{
    filter_of, lemma_filter_sound, lowercase, make_filter, match_bytes, to_lowercase,
    wildcard_match,
};
use vstd::prelude::*;
use vstd::utf8::encode_utf8;

verus! {

/// How many files are compared between two looks at the request to stop.
pub const SCAN_BATCH: usize = 4096;

/// What a `FileView` holds, as plain values.
pub struct Found {
    pub name: Seq<char>,
    pub abs_path: Seq<char>,
    pub is_dir: bool,
    pub extension: Seq<char>,
}

/// One file of the index.
pub struct FileView {
    pub name: String,
    pub abs_path: String,
    pub is_dir: bool,
    pub extension: String,
}

impl View for FileView {
    type V = Found;

    open spec fn view(&self) -> Found {
        Found {
            name: self.name@,
            abs_path: self.abs_path@,
            is_dir: self.is_dir,
            extension: self.extension@,
        }
    }
}

impl Clone for FileView {
    fn clone(&self) -> (copy: Self)
        ensures
            copy == *self,
    {
        FileView {
            name: self.name.clone(),
            abs_path: self.abs_path.clone(),
            is_dir: self.is_dir,
            extension: self.extension.clone(),
        }
    }
}

/// The files of a list, each as plain values.
pub open spec fn found_of(files: Seq<FileView>) -> Seq<Found> {
    files.map_values(|file: FileView| file@)
}

/// Whether a name answers a query that is in lower case: every fragment of
/// the query, taken between its stars, occurs in the lower-case form of
/// the name.
pub open spec fn name_matches(name: Seq<char>, query_lower: Seq<char>) -> bool {
    wildcard_match(encode_utf8(lowercase(name)), encode_utf8(query_lower))
}

/// The files of `files` whose names answer the query, in their order.
pub open spec fn matching(files: Seq<Found>, query_lower: Seq<char>) -> Seq<Found> {
    files.filter(|file: Found| name_matches(file.name, query_lower))
}

/// The first `limit` items of `s`, or all of them if there are fewer.
pub open spec fn first_n<T>(s: Seq<T>, limit: int) -> Seq<T> {
    if s.len() > limit {
        s.take(limit)
    } else {
        s
    }
}

/// What a query finds: the first `limit` files whose names answer it.
pub open spec fn search_result(files: Seq<Found>, query_lower: Seq<char>, limit: int) -> Seq<
    Found,
> {
    first_n(matching(files, query_lower), limit)
}

/// What a query finds among one more file: the same, once the limit is
/// reached or if the file's name does not answer; else that file besides.
pub proof fn lemma_search_push(files: Seq<Found>, file: Found, query_lower: Seq<char>, limit: int)
    requires
        0 <= limit,
    ensures
        search_result(files.push(file), query_lower, limit) == if search_result(
            files,
            query_lower,
            limit,
        ).len() < limit && name_matches(file.name, query_lower) {
            search_result(files, query_lower, limit).push(file)
        } else {
            search_result(files, query_lower, limit)
        },
{
    files.lemma_filter_push(file, |file: Found| name_matches(file.name, query_lower));
}

struct IndexRecord {
    file: FileView,
    /// The name in lower case.
    lower: String,
    /// The filter of the name in lower case.
    filter: u32,
}

impl IndexRecord {
    spec fn valid(&self) -> bool {
        &&& self.lower@ == lowercase(self.file.name@)
        &&& self.filter == filter_of(encode_utf8(self.lower@))
    }
}

/// The receiving end of a channel of std.
#[verifier::external_type_specification]
#[verifier::external_body]
#[verifier::reject_recursive_types(T)]
pub struct ExReceiver<T>(Receiver<T>);

/// Calls `Receiver::try_recv` and says whether a message was waiting, which
/// it takes from the channel. Whether one waits is up to the sender: the
/// contract claims nothing of the result.
#[verifier::external_body]
pub(crate) fn stop_requested(stop_receiver: &Receiver<()>) -> (stop: bool) {
    stop_receiver.try_recv().is_ok()
}

/// How far a search has come.
pub struct Scan {
    /// How many files are compared.
    pub next: usize,
    /// What the query has found among them.
    pub found: Vec<FileView>,
}

/// What a search does next.
pub enum ScanStep {
    /// It was told to stop: it ends and returns nothing.
    Stopped,
    /// It has compared more files and is to go on.
    Going(Scan),
    /// It has compared every file: this is what the query finds.
    Ended(Vec<FileView>),
}

/// Whether `scan` is a state of the search for `query_lower` among `files`:
/// it holds what the query finds among the files already compared.
pub open spec fn scanning(files: Seq<Found>, query_lower: Seq<char>, limit: int, scan: Scan) -> bool {
    &&& scan.next <= files.len()
    &&& found_of(scan.found@) == search_result(files.take(scan.next as int), query_lower, limit)
}

/// How many files are compared after one more step from `next`.
pub open spec fn scan_to(files: Seq<Found>, next: usize) -> int {
    if files.len() - next > SCAN_BATCH {
        next + SCAN_BATCH
    } else {
        files.len() as int
    }
}

/// The files of one volume, for searching.
pub struct SearchIndex {
    records: Vec<IndexRecord>,
}

impl View for SearchIndex {
    type V = Seq<Found>;

    closed spec fn view(&self) -> Seq<Found> {
        self.records@.map_values(|record: IndexRecord| record.file@)
    }
}

impl SearchIndex {
    #[verifier::type_invariant]
    spec fn valid(&self) -> bool {
        forall|i: int| 0 <= i < self.records@.len() ==> (#[trigger] self.records@[i]).valid()
    }

    /// An index without files.
    pub fn new() -> (index: SearchIndex)
        ensures
            index@ == Seq::<Found>::empty(),
    {
        let index = SearchIndex { records: Vec::new() };
        index
    }

    /// The number of files.
    pub fn len(&self) -> (n: usize)
        ensures
            n == self@.len(),
    {
        self.records.len()
    }

    /// Adds a file behind those that are there. Nothing keeps two files from
    /// having one name.
    pub fn add(&mut self, name: String, abs_path: String, is_dir: bool, extension: String)
        ensures
            final(self)@ == old(self)@.push(
                Found { name: name@, abs_path: abs_path@, is_dir, extension: extension@ },
            ),
    {
        proof {
            use_type_invariant(&*self);
        }
        let lower = to_lowercase(name.as_str());
        let filter = make_filter(lower.as_str().as_bytes());
        let record = IndexRecord { file: FileView { name, abs_path, is_dir, extension }, lower, filter };
        let ghost before = self.records@;
        let mut records: Vec<IndexRecord> = Vec::new();
        core::mem::swap(&mut self.records, &mut records);
        records.push(record);
        assert(records@.map_values(|record: IndexRecord| record.file@) =~= before.map_values(
            |record: IndexRecord| record.file@,
        ).push(record.file@));
        self.records = records;
    }

    /// Goes on with a search from the file at `from` up to the one before
    /// `to`: `found` held what the query finds among the files before
    /// `from`, and holds what it finds among those before `to`.
    fn scan(
        &self,
        query: &[u8],
        query_filter: u32,
        limit: usize,
        from: usize,
        to: usize,
        found: &mut Vec<FileView>,
        Ghost(query_lower): Ghost<Seq<char>>,
    )
        requires
            query@ == encode_utf8(query_lower),
            query_filter == filter_of(query@),
            from <= to <= self@.len(),
            found_of(old(found)@) == search_result(self@.take(from as int), query_lower, limit as int),
        ensures
            found_of(final(found)@) == search_result(self@.take(to as int), query_lower, limit as int),
    {
        proof {
            use_type_invariant(self);
        }
        let mut i = from;
        while i < to && found.len() < limit
            invariant
                from <= i <= to <= self@.len(),
                self@.len() == self.records@.len(),
                query@ == encode_utf8(query_lower),
                query_filter == filter_of(query@),
                forall|k: int| 0 <= k < self.records@.len() ==> (#[trigger] self.records@[k]).valid(),
                found_of(found@) == search_result(self@.take(i as int), query_lower, limit as int),
                found@.len() == found_of(found@).len(),
            decreases to - i,
        {
            let record = &self.records[i];
            proof {
                assert(self@.take(i + 1) =~= self@.take(i as int).push(record.file@));
                lemma_search_push(self@.take(i as int), record.file@, query_lower, limit as int);
                if wildcard_match(encode_utf8(record.lower@), query@) {
                    lemma_filter_sound(encode_utf8(record.lower@), query@);
                }
            }
            if record.filter & query_filter == query_filter && match_bytes(
                record.lower.as_str().as_bytes(),
                query,
            ) {
                found.push(record.file.clone());
            }
            i = i + 1;
        }
        proof {
            if i < to {
                lemma_search_full(self@.take(i as int), self@.take(to as int), query_lower, limit as int);
            }
        }
    }

    /// The first `limit` files, in the order in which they were added,
    /// whose names hold every fragment of `query_lower`: the stretches of
    /// the query between its stars. The query is taken as it is; the names
    /// are compared in lower case.
    pub fn search(&self, query_lower: &str, limit: usize) -> (found: Vec<FileView>)
        ensures
            found_of(found@) == search_result(self@, query_lower@, limit as int),
    {
        let query = query_lower.as_bytes();
        let query_filter = make_filter(query);
        let mut found: Vec<FileView> = Vec::new();
        proof {
            lemma_search_nothing(query_lower@, limit as int);
            assert(self@.take(0) =~= Seq::empty());
            assert(found_of(found@) =~= Seq::empty());
            assert(self@.take(self@.len() as int) =~= self@);
        }
        self.scan(query, query_filter, limit, 0, self.len(), &mut found, Ghost(query_lower@));
        found
    }

    /// The state of a search before the first file is compared.
    pub fn begin_scan(&self, query_lower: &str, limit: usize) -> (scan: Scan)
        ensures
            scan.next == 0,
            scan.found@.len() == 0,
            scanning(self@, query_lower@, limit as int, scan),
    {
        let scan = Scan { next: 0, found: Vec::new() };
        proof {
            lemma_search_nothing(query_lower@, limit as int);
            assert(self@.take(0) =~= Seq::empty());
            assert(found_of(scan.found@) =~= Seq::empty());
        }
        scan
    }

    /// One step of a search that can be told to stop. With `stop` the search
    /// ends and what it had found is dropped. Otherwise, if every file is
    /// compared, the search ends with what the query finds; if not, the
    /// next `SCAN_BATCH` files, or those that are left, are compared.
    pub fn scan_step(&self, query_lower: &str, limit: usize, scan: Scan, stop: bool) -> (step:
        ScanStep)
        requires
            scanning(self@, query_lower@, limit as int, scan),
        ensures
            stop ==> step is Stopped,
            !stop && scan.next == self@.len() ==> (step matches ScanStep::Ended(files)
                && found_of(files@) == search_result(self@, query_lower@, limit as int)),
            !stop && scan.next < self@.len() ==> (step matches ScanStep::Going(on) && on.next
                == scan_to(self@, scan.next) && scanning(self@, query_lower@, limit as int, on)),
    {
        if stop {
            return ScanStep::Stopped;
        }
        let n = self.len();
        let Scan { next, found } = scan;
        if next == n {
            assert(self@.take(n as int) =~= self@);
            return ScanStep::Ended(found);
        }
        let to = if n - next > SCAN_BATCH {
            next + SCAN_BATCH
        } else {
            n
        };
        let query = query_lower.as_bytes();
        let query_filter = make_filter(query);
        let mut found = found;
        self.scan(query, query_filter, limit, next, to, &mut found, Ghost(query_lower@));
        ScanStep::Going(Scan { next: to, found })
    }

    /// As `search`, but the search looks at `stop_receiver` before the first
    /// file and then after every `SCAN_BATCH` files, and when a message
    /// waits there it gives up and returns nothing.
    pub fn search_until(&self, query_lower: &str, limit: usize, stop_receiver: &Receiver<()>) -> (found:
        Option<Vec<FileView>>)
        ensures
            found matches Some(files) ==> found_of(files@) == search_result(
                self@,
                query_lower@,
                limit as int,
            ),
    {
        let mut scan = self.begin_scan(query_lower, limit);
        loop
            invariant
                scanning(self@, query_lower@, limit as int, scan),
            decreases self@.len() - scan.next,
        {
            let stop = stop_requested(stop_receiver);
            match self.scan_step(query_lower, limit, scan, stop) {
                ScanStep::Stopped => {
                    return None;
                },
                ScanStep::Ended(files) => {
                    return Some(files);
                },
                ScanStep::Going(on) => {
                    scan = on;
                },
            }
        }
    }
}

/// A query finds nothing where there is no file.
pub proof fn lemma_search_nothing(query_lower: Seq<char>, limit: int)
    requires
        0 <= limit,
    ensures
        search_result(Seq::<Found>::empty(), query_lower, limit) == Seq::<Found>::empty(),
{
    reveal(Seq::filter);
}

/// Once a query has found `limit` files, more files do not change what it
/// finds.
pub proof fn lemma_search_full(
    files: Seq<Found>,
    more: Seq<Found>,
    query_lower: Seq<char>,
    limit: int,
)
    requires
        0 <= limit,
        files.is_prefix_of(more),
        search_result(files, query_lower, limit).len() >= limit,
    ensures
        search_result(more, query_lower, limit) == search_result(files, query_lower, limit),
    decreases more.len() - files.len(),
{
    if more.len() > files.len() {
        let next = files.push(more[files.len() as int]);
        lemma_search_push(files, more[files.len() as int], query_lower, limit);
        lemma_search_full(next, more, query_lower, limit);
    } else {
        assert(more =~= files);
    }
}

} // verus!
