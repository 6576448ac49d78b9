//! The catalogue's life cycle and the merging of what the volumes find.
//!
//! `FileData` decides; it performs no work on a volume itself. Each call
//! takes what happened (a query arrived, a build ended, a volume replied)
//! and says what is to be done next.

use crate::volume::{hits, Hit, SearchResult, SearchResultItem};
use vstd::prelude::*;

verus! {

/// How many items one query delivers at most.
pub const MAX_RESULTS: usize = 20;

/// Where the catalogue stands.
#[derive(Clone, Copy, Debug, PartialEq, Eq, Structural)]
pub enum FileState {
    /// No volume has been indexed.
    Unbuild,
    /// The index is on disk and not in memory.
    Released,
    /// The index is in memory and no query is in flight.
    Ready,
    /// A query has been handed to the volumes and not all have replied.
    Finding,
}

/// What is to be done with a query.
#[derive(Clone, Copy, Debug, PartialEq, Eq, Structural)]
pub enum FindAction {
    /// The query is the previous one again: nothing changes.
    Unchanged,
    /// The results are empty and final; no volume is asked.
    Cleared,
    /// The catalogue cannot be searched now; no volume is asked.
    NotReady,
    /// Every volume is to be asked, under the number `round`; with `refresh`
    /// each volume brings its catalogue up to date first.
    Dispatch { refresh: bool, round: u64 },
}

/// How far the first build of all volumes has come.
#[derive(Clone, Copy, Debug, PartialEq, Eq, Structural)]
pub enum InitProgress {
    /// No build is awaited.
    Idle,
    /// Builds are still running.
    Waiting,
    /// Every volume is built.
    Done,
    /// A build failed.
    Failed,
}

/// What a volume's reply led to.
pub enum Collected {
    /// The reply belongs to no query in flight and was dropped.
    Stale,
    /// More replies are awaited.
    Pending,
    /// Every volume has replied: these are the items to show.
    Complete(Vec<SearchResultItem>),
}

/// `Collected` as plain values.
pub enum Delivery {
    Stale,
    Pending,
    Complete(Seq<Hit>),
}

impl View for Collected {
    type V = Delivery;

    open spec fn view(&self) -> Delivery {
        match self {
            Collected::Stale => Delivery::Stale,
            Collected::Pending => Delivery::Pending,
            Collected::Complete(items) => Delivery::Complete(hits(items@)),
        }
    }
}

/// `FileData` as plain values.
pub struct Catalogue {
    /// The drive letters of the volumes.
    pub vols: Seq<char>,
    pub state: FileState,
    /// The last query that was asked.
    pub query: Seq<char>,
    /// What the volumes have replied to that query so far; once all have
    /// replied, in descending order of rank.
    pub items: Seq<Hit>,
    /// Builds still running.
    pub waiting_init: nat,
    /// Replies still awaited.
    pub waiting_finder: nat,
    /// The number of the last query handed to the volumes.
    pub round: u64,
}

/// The items of `s` that have the rank `rank`, in their order.
pub open spec fn of_rank(s: Seq<Hit>, rank: int) -> Seq<Hit> {
    s.filter(|item: Hit| item.rank == rank)
}

/// The items of `s` whose rank is `lowest` or higher: first those of the
/// highest rank, then those of the next, down to `lowest`; the items of one
/// rank in the order they have in `s`.
pub open spec fn ranked_from(s: Seq<Hit>, lowest: int) -> Seq<Hit>
    decreases i8::MAX - lowest + 1,
{
    if lowest > i8::MAX {
        Seq::empty()
    } else {
        ranked_from(s, lowest + 1) + of_rank(s, lowest)
    }
}

/// The items of `s` in descending order of rank; items of one rank stay in
/// the order they have in `s`.
pub open spec fn by_rank(s: Seq<Hit>) -> Seq<Hit> {
    ranked_from(s, i8::MIN as int)
}

/// `sorted`, which is in descending order of rank, with `x` behind every
/// item whose rank is not lower than its own.
pub open spec fn insert_ranked(sorted: Seq<Hit>, x: Hit) -> Seq<Hit>
    decreases sorted.len(),
{
    if sorted.len() == 0 {
        seq![x]
    } else if sorted.last().rank >= x.rank {
        sorted.push(x)
    } else {
        insert_ranked(sorted.drop_last(), x).push(sorted.last())
    }
}

/// The first `MAX_RESULTS` items of `s`, or all of them if there are fewer.
pub open spec fn top(s: Seq<Hit>) -> Seq<Hit> {
    if s.len() > MAX_RESULTS {
        s.take(MAX_RESULTS as int)
    } else {
        s
    }
}

/// What is delivered when the volumes have replied `s` in all.
pub open spec fn merged(s: Seq<Hit>) -> Seq<Hit> {
    top(by_rank(s))
}

/// Whether the ranks of `s` never rise.
pub open spec fn descending(s: Seq<Hit>) -> bool {
    forall|i: int, j: int| 0 <= i <= j < s.len() ==> s[i].rank >= s[j].rank
}

/// The number that follows `round`.
pub open spec fn next_round(round: u64) -> u64 {
    if round == u64::MAX {
        0
    } else {
        (round + 1) as u64
    }
}

impl Catalogue {
    /// What holds of every catalogue: while a query is in flight it is not
    /// empty and a reply is awaited, and an empty query has no results.
    pub open spec fn consistent(self) -> bool {
        &&& self.state == FileState::Finding ==> self.query.len() > 0 && self.waiting_finder >= 1
        &&& self.query.len() == 0 ==> self.items.len() == 0
    }
}

/// The catalogue and the action after the query `q` has arrived. A query in
/// flight is given up for a new one: replies to it are stale from then on.
pub open spec fn find_step(c: Catalogue, q: Seq<char>) -> (Catalogue, FindAction) {
    if q == c.query {
        (c, FindAction::Unchanged)
    } else {
        let settled = if c.state == FileState::Finding {
            FileState::Ready
        } else {
            c.state
        };
        let fresh = Catalogue {
            query: q,
            items: Seq::empty(),
            state: settled,
            waiting_finder: 0,
            ..c
        };
        if q.len() == 0 {
            (fresh, FindAction::Cleared)
        } else if settled == FileState::Unbuild {
            (fresh, FindAction::NotReady)
        } else if c.vols.len() == 0 {
            (Catalogue { state: FileState::Ready, ..fresh }, FindAction::Cleared)
        } else {
            let round = next_round(c.round);
            (
                Catalogue {
                    state: FileState::Finding,
                    waiting_finder: c.vols.len(),
                    round,
                    ..fresh
                },
                FindAction::Dispatch { refresh: settled == FileState::Released, round },
            )
        }
    }
}

/// The items of a reply: those that the volume found, and none if it gave
/// the query up.
pub open spec fn reply_items(response: Option<Seq<Hit>>) -> Seq<Hit> {
    match response {
        Some(found) => found,
        None => Seq::empty(),
    }
}

/// The catalogue and the delivery after a volume has replied `response` to
/// the query numbered `round`. A volume that gave the query up has replied
/// as well, without items.
pub open spec fn collect_step(c: Catalogue, round: u64, response: Option<Seq<Hit>>) -> (
    Catalogue,
    Delivery,
) {
    if c.state != FileState::Finding || round != c.round {
        (c, Delivery::Stale)
    } else {
        let items = c.items + reply_items(response);
        if c.waiting_finder <= 1 {
            (
                Catalogue {
                    state: FileState::Ready,
                    waiting_finder: 0,
                    items: by_rank(items),
                    ..c
                },
                Delivery::Complete(merged(items)),
            )
        } else {
            (
                Catalogue { waiting_finder: (c.waiting_finder - 1) as nat, items, ..c },
                Delivery::Pending,
            )
        }
    }
}

/// The catalogue and the progress after the volumes `vols` were discovered
/// and their builds started.
pub open spec fn init_step(c: Catalogue, vols: Seq<char>) -> (Catalogue, InitProgress) {
    if vols.len() == 0 {
        (
            Catalogue { vols, waiting_init: 0, state: FileState::Released, ..c },
            InitProgress::Done,
        )
    } else {
        (Catalogue { vols, waiting_init: vols.len(), ..c }, InitProgress::Waiting)
    }
}

/// The catalogue and the progress after one build has ended, well (`ok`) or
/// not.
pub open spec fn build_step(c: Catalogue, ok: bool) -> (Catalogue, InitProgress) {
    if c.waiting_init == 0 {
        (c, InitProgress::Idle)
    } else if !ok {
        (Catalogue { waiting_init: 0, ..c }, InitProgress::Failed)
    } else if c.waiting_init == 1 {
        (Catalogue { waiting_init: 0, state: FileState::Released, ..c }, InitProgress::Done)
    } else {
        (Catalogue { waiting_init: (c.waiting_init - 1) as nat, ..c }, InitProgress::Waiting)
    }
}

/// The catalogue, and whether the volumes are to load their index, after a
/// request to make the index ready.
pub open spec fn update_step(c: Catalogue) -> (Catalogue, bool) {
    if c.state == FileState::Released {
        (Catalogue { state: FileState::Ready, ..c }, true)
    } else {
        (c, false)
    }
}

/// The catalogue, and whether the volumes are to drop their index, after a
/// request to release it.
pub open spec fn release_step(c: Catalogue) -> (Catalogue, bool) {
    if c.state == FileState::Ready {
        (Catalogue { state: FileState::Released, ..c }, true)
    } else {
        (c, false)
    }
}

/// The items of the replies of `replies`, in the order of the replies.
pub open spec fn gathered(replies: Seq<Option<Seq<Hit>>>) -> Seq<Hit>
    decreases replies.len(),
{
    if replies.len() == 0 {
        Seq::empty()
    } else {
        gathered(replies.drop_last()) + reply_items(replies.last())
    }
}

/// The catalogue after the volumes have replied `replies`, one after the
/// other, to the query numbered `round`, and what the last reply led to.
pub open spec fn collect_all(c: Catalogue, round: u64, replies: Seq<Option<Seq<Hit>>>) -> (
    Catalogue,
    Delivery,
)
    decreases replies.len(),
{
    if replies.len() == 0 {
        (c, Delivery::Pending)
    } else {
        collect_step(collect_all(c, round, replies.drop_last()).0, round, replies.last())
    }
}

/// Where `x` stands once it has entered a list in descending order of rank:
/// at `pos`, if the items from `pos` on rank lower and the one before does
/// not.
pub proof fn lemma_insert_ranked_at(sorted: Seq<Hit>, x: Hit, pos: int)
    requires
        0 <= pos <= sorted.len(),
        forall|k: int| pos <= k < sorted.len() ==> sorted[k].rank < x.rank,
        pos > 0 ==> sorted[pos - 1].rank >= x.rank,
    ensures
        insert_ranked(sorted, x) == sorted.insert(pos, x),
    decreases sorted.len(),
{
    if 0 <= pos < sorted.len() {
        lemma_insert_ranked_at(sorted.drop_last(), x, pos);
    }
}

/// An item that enters a list in descending order of rank leaves it in
/// descending order, one longer, and holding that item besides its own.
pub proof fn lemma_insert_ranked(sorted: Seq<Hit>, x: Hit)
    requires
        descending(sorted),
    ensures
        descending(insert_ranked(sorted, x)),
        insert_ranked(sorted, x).len() == sorted.len() + 1,
        insert_ranked(sorted, x).to_multiset() == sorted.to_multiset().insert(x),
        forall|i: int|
            0 <= i < insert_ranked(sorted, x).len() ==> #[trigger] insert_ranked(sorted, x)[i].rank
                >= x.rank || sorted.len() > 0 && insert_ranked(sorted, x)[i].rank
                >= sorted.last().rank,
    decreases sorted.len(),
{
    broadcast use vstd::seq_lib::to_multiset_build;

    if sorted.len() == 0 {
        assert(sorted =~= Seq::empty());
    } else if sorted.last().rank < x.rank {
        let front = sorted.drop_last();
        let last = sorted.last();
        lemma_insert_ranked(front, x);
        assert(sorted =~= front.push(last));
    }
}

/// An item that ranks higher than all items of `tail` enters `head + tail`
/// where it enters `head`.
proof fn lemma_insert_before(head: Seq<Hit>, tail: Seq<Hit>, x: Hit)
    requires
        forall|i: int| 0 <= i < tail.len() ==> (#[trigger] tail[i]).rank < x.rank,
    ensures
        insert_ranked(head + tail, x) == insert_ranked(head, x) + tail,
    decreases tail.len(),
{
    if tail.len() > 0 {
        assert((head + tail).drop_last() =~= head + tail.drop_last());
        lemma_insert_before(head, tail.drop_last(), x);
        assert((insert_ranked(head, x) + tail.drop_last()).push(tail.last()) =~= insert_ranked(
            head,
            x,
        ) + tail);
    }
}

/// With one more item the items from a rank on are the same if the item
/// ranks lower, and else the same with that item entered by its rank.
proof fn lemma_ranked_from_push(s: Seq<Hit>, x: Hit, lowest: int)
    requires
        i8::MIN <= lowest <= i8::MAX + 1,
    ensures
        ranked_from(s.push(x), lowest) == if x.rank >= lowest {
            insert_ranked(ranked_from(s, lowest), x)
        } else {
            ranked_from(s, lowest)
        },
        forall|i: int|
            0 <= i < ranked_from(s, lowest).len() ==> (#[trigger] ranked_from(s, lowest)[i]).rank
                >= lowest,
    decreases i8::MAX - lowest + 1,
{
    if lowest <= i8::MAX {
        let same = |item: Hit| item.rank == lowest;
        let above = ranked_from(s, lowest + 1);
        let here = of_rank(s, lowest);
        lemma_ranked_from_push(s, x, lowest + 1);
        s.lemma_filter_push(x, same);
        assert forall|i: int| 0 <= i < here.len() implies (#[trigger] here[i]).rank == lowest by {
            s.lemma_filter_pred(same, i);
        }
        if x.rank > lowest {
            lemma_insert_before(above, here, x);
        }
    }
}

/// Sorting one more item is entering it, by its rank, into the others
/// sorted.
pub proof fn lemma_by_rank_push(s: Seq<Hit>, x: Hit)
    ensures
        by_rank(s.push(x)) == insert_ranked(by_rank(s), x),
{
    lemma_ranked_from_push(s, x, i8::MIN as int);
}

/// Sorting no items gives none.
pub proof fn lemma_by_rank_empty()
    ensures
        by_rank(Seq::<Hit>::empty()) == Seq::<Hit>::empty(),
{
    lemma_ranked_from_empty(i8::MIN as int);
}

proof fn lemma_ranked_from_empty(lowest: int)
    requires
        i8::MIN <= lowest <= i8::MAX + 1,
    ensures
        ranked_from(Seq::<Hit>::empty(), lowest) == Seq::<Hit>::empty(),
    decreases i8::MAX - lowest + 1,
{
    if lowest <= i8::MAX {
        lemma_ranked_from_empty(lowest + 1);
        reveal(Seq::filter);
    }
}

/// Sorting by rank keeps every item, as often as it occurs, and leaves the
/// ranks in descending order.
pub proof fn lemma_by_rank(s: Seq<Hit>)
    ensures
        descending(by_rank(s)),
        by_rank(s).len() == s.len(),
        by_rank(s).to_multiset() == s.to_multiset(),
    decreases s.len(),
{
    broadcast use vstd::seq_lib::to_multiset_build;

    if s.len() == 0 {
        lemma_by_rank_empty();
        assert(s =~= Seq::empty());
    } else {
        lemma_by_rank(s.drop_last());
        lemma_by_rank_push(s.drop_last(), s.last());
        lemma_insert_ranked(by_rank(s.drop_last()), s.last());
        assert(s =~= s.drop_last().push(s.last()));
    }
}

/// What is delivered holds at most `MAX_RESULTS` items, in descending order
/// of rank, each of them one of the items that the volumes replied.
pub proof fn lemma_merged(s: Seq<Hit>)
    ensures
        merged(s).len() <= MAX_RESULTS,
        merged(s).len() <= s.len(),
        descending(merged(s)),
        forall|i: int| 0 <= i < merged(s).len() ==> s.contains(#[trigger] merged(s)[i]),
{
    broadcast use vstd::seq_lib::to_multiset_contains;

    lemma_by_rank(s);
    let sorted = by_rank(s);
    assert forall|i: int| 0 <= i < merged(s).len() implies s.contains(#[trigger] merged(s)[i]) by {
        assert(sorted.to_multiset().contains(sorted[i]));
    }
}

/// Every step leads from a consistent catalogue to a consistent one.
pub proof fn lemma_steps_keep_consistent(
    c: Catalogue,
    q: Seq<char>,
    round: u64,
    response: Option<Seq<Hit>>,
    vols: Seq<char>,
    ok: bool,
)
    requires
        c.consistent(),
    ensures
        find_step(c, q).0.consistent(),
        collect_step(c, round, response).0.consistent(),
        init_step(c, vols).0.consistent(),
        build_step(c, ok).0.consistent(),
        update_step(c).0.consistent(),
        release_step(c).0.consistent(),
{
    lemma_by_rank(c.items + reply_items(response));
}

/// An empty query leaves the results empty and no volume is asked.
pub proof fn lemma_empty_query(c: Catalogue)
    requires
        c.consistent(),
    ensures
        !(find_step(c, Seq::empty()).1 is Dispatch),
        find_step(c, Seq::empty()).0.items.len() == 0,
        find_step(c, Seq::empty()).0.state != FileState::Finding,
{
}

/// A query asked twice in a row changes nothing the second time: no volume
/// is asked and the catalogue, with its results, stays as the first call
/// left it.
pub proof fn lemma_same_query_twice(c: Catalogue, q: Seq<char>)
    ensures
        find_step(find_step(c, q).0, q) == (find_step(c, q).0, FindAction::Unchanged),
{
}

/// A reply under another number than that of the query in flight, or with
/// no query in flight, changes nothing.
pub proof fn lemma_stale_reply(c: Catalogue, round: u64, response: Option<Seq<Hit>>)
    requires
        c.state != FileState::Finding || round != c.round,
    ensures
        collect_step(c, round, response) == (c, Delivery::Stale),
{
}

/// While replies to the query in flight are still awaited, the items of
/// each one are added and nothing is delivered.
proof fn lemma_collect_some(c: Catalogue, replies: Seq<Option<Seq<Hit>>>)
    requires
        c.state == FileState::Finding,
        c.items.len() == 0,
        replies.len() < c.waiting_finder,
    ensures
        collect_all(c, c.round, replies).0 == (Catalogue {
            items: gathered(replies),
            waiting_finder: (c.waiting_finder - replies.len()) as nat,
            ..c
        }),
    decreases replies.len(),
{
    if replies.len() == 0 {
        assert(c.items =~= Seq::empty());
    } else {
        lemma_collect_some(c, replies.drop_last());
    }
}

/// One whole query: after the query `q` was handed to the volumes and each
/// of them has replied, with what it found or with nothing because it gave
/// the query up, what is delivered is made of those replies alone, taken
/// together in the order they came, sorted by rank and cut to `MAX_RESULTS`
/// items; and the catalogue is ready again.
pub proof fn lemma_round_delivers(c: Catalogue, q: Seq<char>, replies: Seq<Option<Seq<Hit>>>)
    requires
        find_step(c, q).1 is Dispatch,
        replies.len() == c.vols.len(),
    ensures
        ({
            let asked = find_step(c, q).0;
            let end = collect_all(asked, asked.round, replies);
            &&& end.1 == Delivery::Complete(merged(gathered(replies)))
            &&& end.0.state == FileState::Ready
            &&& end.0.query == q
            &&& end.0.items == by_rank(gathered(replies))
        }),
{
    let asked = find_step(c, q).0;
    lemma_collect_some(asked, replies.drop_last());
}

/// Brings `items` into descending order of rank; items of one rank keep
/// their order.
pub fn sort_by_rank(items: &mut Vec<SearchResultItem>)
    ensures
        hits(final(items)@) == by_rank(hits(old(items)@)),
{
    let ghost given = items@;
    let n = items.len();
    let mut i: usize = 0;
    proof {
        lemma_by_rank_empty();
        assert(hits(items@.take(0)) =~= Seq::empty());
    }
    while i < n
        invariant
            i <= n,
            n == items@.len(),
            n == given.len(),
            hits(items@.take(i as int)) == by_rank(hits(given.take(i as int))),
            items@.skip(i as int) == given.skip(i as int),
        decreases n - i,
    {
        let ghost before = items@;
        assert(before[i as int] == before.skip(i as int)[0]);
        let x = items.remove(i);
        let ghost rest = items@;
        let mut pos: usize = i;
        while pos > 0 && items[pos - 1].rank < x.rank
            invariant
                pos <= i,
                i < n,
                items@ == rest,
                rest.len() == n - 1,
                forall|k: int| pos <= k < i ==> rest[k].rank < x.rank,
            decreases pos,
        {
            pos = pos - 1;
        }
        items.insert(pos, x);
        proof {
            let sorted = hits(before.take(i as int));
            assert(rest.take(i as int) =~= before.take(i as int));
            lemma_insert_ranked_at(sorted, x@, pos as int);
            assert(hits(given.take(i + 1)) =~= hits(given.take(i as int)).push(x@));
            lemma_by_rank_push(hits(given.take(i as int)), x@);
            assert(items@.skip(i + 1) =~= before.skip(i as int).skip(1));
        }
        i = i + 1;
    }
    assert(given.take(n as int) =~= given);
}

/// Copies of the first `limit` items, or of all of them if there are fewer.
pub fn leading_items(items: &Vec<SearchResultItem>, limit: usize) -> (first: Vec<SearchResultItem>)
    ensures
        hits(first@) == if items@.len() > limit {
            hits(items@).take(limit as int)
        } else {
            hits(items@)
        },
{
    let n = if items.len() > limit {
        limit
    } else {
        items.len()
    };
    let mut first: Vec<SearchResultItem> = Vec::new();
    let mut i: usize = 0;
    while i < n
        invariant
            i <= n <= items@.len(),
            first@.len() == i,
            hits(first@) == hits(items@).take(i as int),
        decreases n - i,
    {
        first.push(items[i].clone());
        i = i + 1;
    }
    first
}

/// The catalogue of all volumes: which ones there are, where their index
/// stands, and the query in hand with what was found for it.
pub struct FileData {
    vols: Vec<char>,
    finding_result: SearchResult,
    waiting_init: usize,
    waiting_finder: usize,
    round: u64,
    state: FileState,
}

impl View for FileData {
    type V = Catalogue;

    closed spec fn view(&self) -> Catalogue {
        Catalogue {
            vols: self.vols@,
            state: self.state,
            query: self.finding_result.query@,
            items: hits(self.finding_result.items@),
            waiting_init: self.waiting_init as nat,
            waiting_finder: self.waiting_finder as nat,
            round: self.round,
        }
    }
}

impl FileData {
    #[verifier::type_invariant]
    spec fn valid(&self) -> bool {
        self@.consistent()
    }

    /// A catalogue with no volume, nothing built and no query asked.
    pub fn new() -> (data: FileData)
        ensures
            data@ == (Catalogue {
                vols: Seq::empty(),
                state: FileState::Unbuild,
                query: Seq::empty(),
                items: Seq::empty(),
                waiting_init: 0,
                waiting_finder: 0,
                round: 0,
            }),
            data@.consistent(),
    {
        let data = FileData {
            vols: Vec::new(),
            finding_result: SearchResult { items: Vec::new(), query: String::new() },
            waiting_init: 0,
            waiting_finder: 0,
            round: 0,
            state: FileState::Unbuild,
        };
        assert(hits(data.finding_result.items@) =~= Seq::empty());
        data
    }

    /// Where the catalogue stands.
    pub fn state(&self) -> (state: FileState)
        ensures
            state == self@.state,
    {
        self.state
    }

    /// The drive letters of the volumes.
    pub fn volumes(&self) -> (vols: &Vec<char>)
        ensures
            vols@ == self@.vols,
    {
        &self.vols
    }

    /// The last query and what has been found for it so far.
    pub fn result(&self) -> (found: &SearchResult)
        ensures
            found.query@ == self@.query,
            hits(found.items@) == self@.items,
    {
        &self.finding_result
    }

    /// How many replies to the query in flight are still awaited.
    pub fn awaited(&self) -> (n: usize)
        ensures
            n == self@.waiting_finder,
    {
        self.waiting_finder
    }

    /// Takes note of the volumes that were discovered, whose builds are now
    /// to run. With no volume there is nothing to build and the catalogue is
    /// released at once.
    pub fn init_volumes(&mut self, vols: Vec<char>) -> (progress: InitProgress)
        ensures
            (final(self)@, progress) == init_step(old(self)@, vols@),
            final(self)@.consistent(),
    {
        proof {
            use_type_invariant(&*self);
        }
        let n = vols.len();
        self.vols = vols;
        self.waiting_init = n;
        if n == 0 {
            self.state = FileState::Released;
            InitProgress::Done
        } else {
            InitProgress::Waiting
        }
    }

    /// Takes note that the build of one volume has ended. When the last one
    /// has ended well the catalogue is released; a build that failed ends
    /// the wait and leaves the catalogue as it was.
    pub fn build_finished(&mut self, ok: bool) -> (progress: InitProgress)
        ensures
            (final(self)@, progress) == build_step(old(self)@, ok),
            final(self)@.consistent(),
    {
        proof {
            use_type_invariant(&*self);
        }
        if self.waiting_init == 0 {
            InitProgress::Idle
        } else if !ok {
            self.waiting_init = 0;
            InitProgress::Failed
        } else if self.waiting_init == 1 {
            self.waiting_init = 0;
            self.state = FileState::Released;
            InitProgress::Done
        } else {
            self.waiting_init = self.waiting_init - 1;
            InitProgress::Waiting
        }
    }

    /// Takes a query. The same query as the last one changes nothing. Any
    /// other query empties the results; an empty one ends there, and so does
    /// one that comes before anything is built. Otherwise every volume is to
    /// be asked.
    pub fn find(&mut self, filename: String) -> (action: FindAction)
        ensures
            (final(self)@, action) == find_step(old(self)@, filename@),
            final(self)@.consistent(),
            filename@ == old(self)@.query ==> action == FindAction::Unchanged && final(self)@ == old(
                self,
            )@,
            filename@.len() == 0 ==> !(action is Dispatch) && final(self)@.items.len() == 0,
    {
        proof {
            use_type_invariant(&*self);
        }
        if self.finding_result.query == filename {
            return FindAction::Unchanged;
        }
        let empty = filename.as_str().is_empty();
        match self.state {
            FileState::Finding => {
                self.state = FileState::Ready;
            },
            _ => {},
        }
        self.waiting_finder = 0;
        self.finding_result = SearchResult { items: Vec::new(), query: filename };
        assert(hits(self.finding_result.items@) =~= Seq::empty());
        if empty {
            return FindAction::Cleared;
        }
        let refresh = match self.state {
            FileState::Unbuild => {
                return FindAction::NotReady;
            },
            FileState::Released => true,
            _ => false,
        };
        let n = self.vols.len();
        if n == 0 {
            self.state = FileState::Ready;
            return FindAction::Cleared;
        }
        let round = if self.round == u64::MAX {
            0
        } else {
            self.round + 1
        };
        self.round = round;
        self.waiting_finder = n;
        self.state = FileState::Finding;
        FindAction::Dispatch { refresh, round }
    }

    /// Takes the reply of one volume to the query numbered `round`: the
    /// items it found, or nothing if it gave the query up, which counts as
    /// a reply without items. A reply to another query than the one in
    /// flight is dropped. When the last volume has replied, the items of
    /// all replies are sorted by rank and the first `MAX_RESULTS` of them
    /// are delivered.
    pub fn collect(&mut self, round: u64, response: Option<Vec<SearchResultItem>>) -> (out:
        Collected)
        ensures
            (final(self)@, out@) == collect_step(
                old(self)@,
                round,
                match response {
                    Some(found) => Some(hits(found@)),
                    None => None,
                },
            ),
            final(self)@.consistent(),
            out matches Collected::Complete(shown) ==> {
                &&& shown@.len() <= MAX_RESULTS
                &&& descending(hits(shown@))
                &&& forall|i: int|
                    0 <= i < shown@.len() ==> (old(self)@.items + reply_items(
                        match response {
                            Some(found) => Some(hits(found@)),
                            None => None,
                        },
                    )).contains(#[trigger] hits(shown@)[i])
            },
    {
        proof {
            use_type_invariant(&*self);
        }
        match self.state {
            FileState::Finding => {},
            _ => {
                return Collected::Stale;
            },
        }
        if round != self.round {
            return Collected::Stale;
        }
        let mut found = match response {
            Some(found) => found,
            None => Vec::new(),
        };
        let ghost all = old(self)@.items + hits(found@);
        let mut items: Vec<SearchResultItem> = Vec::new();
        core::mem::swap(&mut self.finding_result.items, &mut items);
        items.append(&mut found);
        assert(hits(items@) =~= all);
        if self.waiting_finder <= 1 {
            self.state = FileState::Ready;
            self.waiting_finder = 0;
            sort_by_rank(&mut items);
            let shown = leading_items(&items, MAX_RESULTS);
            self.finding_result.items = items;
            proof {
                lemma_by_rank(all);
                lemma_merged(all);
            }
            Collected::Complete(shown)
        } else {
            self.waiting_finder = self.waiting_finder - 1;
            self.finding_result.items = items;
            Collected::Pending
        }
    }

    /// Asks that the index be in memory. Only a released catalogue changes:
    /// it becomes ready, and `true` says that every volume is to bring its
    /// catalogue up to date.
    pub fn update_index(&mut self) -> (forward: bool)
        ensures
            (final(self)@, forward) == update_step(old(self)@),
            final(self)@.consistent(),
    {
        proof {
            use_type_invariant(&*self);
        }
        match self.state {
            FileState::Released => {
                self.state = FileState::Ready;
                true
            },
            _ => false,
        }
    }

    /// Asks that the index leave memory. Only a ready catalogue changes: it
    /// becomes released, and `true` says that every volume is to drop its
    /// catalogue.
    pub fn release_index(&mut self) -> (forward: bool)
        ensures
            (final(self)@, forward) == release_step(old(self)@),
            final(self)@.consistent(),
    {
        proof {
            use_type_invariant(&*self);
        }
        match self.state {
            FileState::Ready => {
                self.state = FileState::Released;
                true
            },
            _ => false,
        }
    }
}

} // verus!
