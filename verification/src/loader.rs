//! A coordinator that loads a batch of named assets together and reports
//! completion of the whole group exactly once.
//!
//! The [`Loader`] starts idle: requests are enqueued with [`Loader::enqueue`],
//! then the batch is frozen with [`Loader::submit`]. From then on a scheduler
//! calls [`Loader::poll`] once per tick with the asset source; the poll
//! dispatches fresh requests, checks in-flight ones, and flips the loader to
//! `Done` on the tick in which the last request resolves. Individual results
//! are then retrieved by path with [`Loader::take`], and [`Loader::reset`]
//! readies the same loader for an unrelated batch.
//!
//! The loader is generic over the handle type `H` that the asset source hands
//! out; handles are opaque to the loader and are only stored and returned.

use vstd::prelude::*;

verus! {

/// Lifecycle state of a [`Loader`].
#[derive(Debug, Clone, Copy, PartialEq, Eq, Structural)]
pub enum State {
    /// Idle state where a [`Loader`] is ready to receive new requests.
    Ready,
    /// Loading state during which the [`Loader`] actively works with the
    /// asset source to load the group of assets.
    Loading,
    /// Final state indicating the group of assets has resolved.
    Done,
}

/// Load state of a single asset, as reported by the asset source.
#[derive(Debug, Clone, Copy, PartialEq, Eq, Structural)]
pub enum LoadState {
    /// The source has not started loading the asset.
    NotLoaded,
    /// The source is still loading the asset.
    Loading,
    /// The asset finished loading.
    Loaded,
    /// The asset failed to load, permanently; the source will not retry.
    Failed,
}

/// A load state is resolved when it is terminal: loaded or permanently
/// failed. The loader treats both the same way; the caller decides what a
/// failed handle means.
pub open spec fn is_resolved(s: LoadState) -> bool {
    s == LoadState::Loaded || s == LoadState::Failed
}

/// Exec mirror of [`is_resolved`].
pub fn load_state_is_resolved(s: LoadState) -> (r: bool)
    ensures
        r == is_resolved(s),
{
    s == LoadState::Loaded || s == LoadState::Failed
}

/// The capability a [`Loader`] requires from its collaborator: an external
/// service that can begin loading a path and report the current load state of
/// a handle. Nothing is assumed of either answer, so everything proved about
/// the loader holds for every implementation.
pub trait AssetSource<H> {
    /// Start loading `path`, returning a handle for it together with its
    /// current load state (a source may report an asset as already loaded or
    /// failed right away, for instance from a cache).
    fn begin_load(&mut self, path: &str) -> (H, LoadState);

    /// Report the current load state of `handle`.
    fn query_state(&mut self, handle: &H) -> LoadState;
}

/// The mathematical model of a [`Loader`]: its state, the paths enqueued but
/// not yet dispatched (in FIFO order), the dispatched pairs awaiting
/// resolution, and the resolved results by path.
pub struct LoaderModel<H> {
    pub state: State,
    pub requests: Seq<Seq<char>>,
    pub work: Seq<(Seq<char>, H)>,
    pub complete: Map<Seq<char>, H>,
}

impl<H> LoaderModel<H> {
    /// Number of requests of the current batch that have not resolved yet.
    pub open spec fn pending(self) -> nat {
        self.requests.len() + self.work.len()
    }
}

/// The set of paths that appear among (path, handle) entries.
pub open spec fn key_set<H>(s: Seq<(Seq<char>, H)>) -> Set<Seq<char>> {
    Set::new(|k: Seq<char>| exists|i: int| 0 <= i < s.len() && (#[trigger] s[i]).0 == k)
}

/// The set of paths that appear in a sequence of paths.
pub open spec fn path_set(s: Seq<Seq<char>>) -> Set<Seq<char>> {
    Set::new(|k: Seq<char>| exists|i: int| 0 <= i < s.len() && (#[trigger] s[i]) == k)
}

/// No two entries share a path.
pub open spec fn unique_keys<H>(s: Seq<(Seq<char>, H)>) -> bool {
    forall|i: int, j: int| #![trigger s[i], s[j]] 0 <= i < j < s.len() ==> s[i].0 != s[j].0
}

/// The map that a sequence of (path, handle) entries stands for; a later
/// entry for the same path wins.
pub open spec fn entry_map<H>(s: Seq<(Seq<char>, H)>) -> Map<Seq<char>, H>
    decreases s.len(),
{
    if s.len() == 0 {
        Map::empty()
    } else {
        entry_map(s.drop_last()).insert(s.last().0, s.last().1)
    }
}

/// What one poll of a loading batch guarantees, whatever the asset source
/// answers: the request queue is drained, the number of pending requests
/// never grows, the batch is done exactly when nothing is pending any more,
/// resolved results are never dropped, and no request is lost or invented —
/// after the poll, the in-flight and resolved paths together still cover
/// precisely what they covered before plus the freshly dispatched requests.
/// Handles are never mixed up either: every in-flight pair was in flight
/// before or was freshly dispatched, and every resolved handle is the one
/// already resolved, the one that was in flight for that same path, or one
/// the source just returned for a freshly dispatched path.
pub open spec fn poll_step<H>(pre: LoaderModel<H>, post: LoaderModel<H>) -> bool {
    &&& post.requests.len() == 0
    &&& post.pending() <= pre.pending()
    &&& (post.state == State::Done <==> post.pending() == 0)
    &&& (post.state == State::Loading <==> post.pending() != 0)
    &&& pre.complete.dom().subset_of(post.complete.dom())
    &&& post.complete.dom().union(key_set(post.work)) == pre.complete.dom().union(
        key_set(pre.work),
    ).union(path_set(pre.requests))
    &&& forall|j: int|
        0 <= j < post.work.len() ==> pre.work.contains(#[trigger] post.work[j]) || path_set(
            pre.requests,
        ).contains(post.work[j].0)
    &&& forall|p: Seq<char>|
        #[trigger] post.complete.dom().contains(p) ==> {
            ||| (pre.complete.dom().contains(p) && post.complete[p] == pre.complete[p])
            ||| pre.work.contains((p, post.complete[p]))
            ||| path_set(pre.requests).contains(p)
        }
}

/// Law: a well-formed loader that reports its batch done holds nothing
/// pending; together with [`poll_step`]'s completion clause, once a
/// submitted batch has been polled, `pending() == 0` and being done are the
/// same observation.
pub proof fn lemma_done_no_pending<H>(l: &Loader<H>)
    requires
        l.wf(),
    ensures
        l@.state == State::Done ==> l@.pending() == 0,
{
}

/// Law: polls only make progress. Across any poll of a loading batch the
/// number of pending requests never grows, and a poll that finds nothing
/// pending — in particular the first poll of a batch submitted with no
/// enqueued request — reports the batch done.
pub proof fn lemma_poll_monotone<H>(pre: LoaderModel<H>, post: LoaderModel<H>)
    requires
        poll_step(pre, post),
    ensures
        post.pending() <= pre.pending(),
        pre.pending() == 0 ==> post.state == State::Done,
{
}

/// Law: taking a resolved handle is destructive. When a take for `path`
/// succeeds it leaves the completion map without that path, so a second take
/// for the same path before the next reset finds nothing.
pub proof fn lemma_take_is_destructive<H>(
    pre: LoaderModel<H>,
    post: LoaderModel<H>,
    path: Seq<char>,
)
    requires
        post.complete == pre.complete.remove(path),
    ensures
        !post.complete.dom().contains(path),
{
}

/// Law: no request is duplicated or lost by a poll. The paths a loader
/// answers for — resolved or still in flight — are exactly those it answered
/// for before the poll plus the freshly dispatched ones, and every result
/// already resolved stays available until taken or reset.
pub proof fn lemma_poll_conserves_paths<H>(pre: LoaderModel<H>, post: LoaderModel<H>)
    requires
        poll_step(pre, post),
    ensures
        post.complete.dom().union(key_set(post.work)) == pre.complete.dom().union(
            key_set(pre.work),
        ).union(path_set(pre.requests)),
        pre.complete.dom().subset_of(post.complete.dom()),
{
}

proof fn lemma_unique_keys_drop_last<H>(s: Seq<(Seq<char>, H)>)
    requires
        unique_keys(s),
        s.len() > 0,
    ensures
        unique_keys(s.drop_last()),
{
    let t = s.drop_last();
    assert forall|i: int, j: int| #![trigger t[i], t[j]] 0 <= i < j < t.len() implies t[i].0
        != t[j].0 by {
        assert(t[i] == s[i]);
        assert(t[j] == s[j]);
    }
}

proof fn lemma_unique_keys_push<H>(s: Seq<(Seq<char>, H)>, e: (Seq<char>, H))
    requires
        unique_keys(s),
        forall|i: int| 0 <= i < s.len() ==> (#[trigger] s[i]).0 != e.0,
    ensures
        unique_keys(s.push(e)),
{
    let t = s.push(e);
    assert forall|a: int, b: int| #![trigger t[a], t[b]] 0 <= a < b < t.len() implies t[a].0
        != t[b].0 by {
        assert(t[a] == s[a]);
        if b < s.len() {
            assert(t[b] == s[b]);
        } else {
            assert(t[b] == e);
        }
    }
}

/// A path is in the domain of the map an entry sequence stands for exactly
/// when some entry carries it.
proof fn lemma_entry_map_dom<H>(s: Seq<(Seq<char>, H)>)
    ensures
        forall|k: Seq<char>| #[trigger]
            entry_map(s).dom().contains(k) <==> exists|i: int|
                0 <= i < s.len() && (#[trigger] s[i]).0 == k,
    decreases s.len(),
{
    if s.len() == 0 {
    } else {
        let t = s.drop_last();
        lemma_entry_map_dom(t);
        assert forall|k: Seq<char>| #[trigger] entry_map(s).dom().contains(k) implies exists|
            i: int,
        | 0 <= i < s.len() && (#[trigger] s[i]).0 == k by {
            if k == s.last().0 {
                assert((s[s.len() - 1]).0 == k);
            } else {
                assert(entry_map(t).dom().contains(k));
                let i = choose|i: int| 0 <= i < t.len() && (#[trigger] t[i]).0 == k;
                assert(t[i] == s[i]);
                assert((s[i]).0 == k);
            }
        }
        assert forall|k: Seq<char>|
            (exists|i: int| 0 <= i < s.len() && (#[trigger] s[i]).0 == k) implies #[trigger]
            entry_map(s).dom().contains(k) by {
            let i = choose|i: int| 0 <= i < s.len() && (#[trigger] s[i]).0 == k;
            if i < s.len() - 1 {
                assert(t[i] == s[i]);
                assert((t[i]).0 == k);
                assert(entry_map(t).dom().contains(k));
            } else {
                assert(k == s.last().0);
            }
        }
    }
}

/// With unique paths, the map an entry sequence stands for sends each
/// entry's path to that entry's handle.
proof fn lemma_entry_map_get<H>(s: Seq<(Seq<char>, H)>, i: int)
    requires
        unique_keys(s),
        0 <= i < s.len(),
    ensures
        entry_map(s).dom().contains(s[i].0),
        entry_map(s)[s[i].0] == s[i].1,
    decreases s.len(),
{
    if i == s.len() - 1 {
    } else {
        let t = s.drop_last();
        lemma_unique_keys_drop_last(s);
        assert(t[i] == s[i]);
        lemma_entry_map_get(t, i);
        assert(s[i].0 != s[s.len() - 1].0);
    }
}

/// With unique paths, removing an entry removes exactly its path from the
/// map the sequence stands for, and keeps the remaining paths unique.
proof fn lemma_entry_map_remove<H>(s: Seq<(Seq<char>, H)>, i: int)
    requires
        unique_keys(s),
        0 <= i < s.len(),
    ensures
        entry_map(s.remove(i)) == entry_map(s).remove(s[i].0),
        unique_keys(s.remove(i)),
    decreases s.len(),
{
    s.remove_ensures(i);
    let r = s.remove(i);
    assert forall|a: int, b: int| #![trigger r[a], r[b]] 0 <= a < b < r.len() implies r[a].0
        != r[b].0 by {
        let sa: int = if a < i { a } else { a + 1 };
        let sb: int = if b < i { b } else { b + 1 };
        assert(r[a] == s[sa]);
        assert(r[b] == s[sb]);
    }
    if i == s.len() - 1 {
        assert(r =~= s.drop_last());
        lemma_entry_map_dom(s.drop_last());
        assert(!entry_map(s.drop_last()).dom().contains(s[i].0)) by {
            if entry_map(s.drop_last()).dom().contains(s[i].0) {
                let j = choose|j: int|
                    0 <= j < s.drop_last().len() && (#[trigger] s.drop_last()[j]).0 == s[i].0;
                assert(s.drop_last()[j] == s[j]);
            }
        }
        assert(entry_map(r) =~= entry_map(s).remove(s[i].0));
    } else {
        let t = s.drop_last();
        lemma_unique_keys_drop_last(s);
        lemma_entry_map_remove(t, i);
        t.remove_ensures(i);
        assert(r.len() == s.len() - 1);
        assert(r.last() == s[s.len() - 1]);
        assert(r.drop_last() =~= t.remove(i));
        assert(t[i] == s[i]);
        assert(s[i].0 != s[s.len() - 1].0);
        assert(entry_map(r) == entry_map(t.remove(i)).insert(s.last().0, s.last().1));
        assert(entry_map(t).remove(s[i].0).insert(s.last().0, s.last().1) =~= entry_map(
            t,
        ).insert(s.last().0, s.last().1).remove(s[i].0));
    }
}

/// Appending an entry updates the map the sequence stands for at exactly
/// that entry's path.
proof fn lemma_entry_map_push<H>(s: Seq<(Seq<char>, H)>, e: (Seq<char>, H))
    ensures
        entry_map(s.push(e)) == entry_map(s).insert(e.0, e.1),
{
    assert(s.push(e).drop_last() =~= s);
    assert(s.push(e).last() == e);
}

/// Removing an entry splits the path set into the removed path and the rest.
proof fn lemma_key_set_remove<H>(s: Seq<(Seq<char>, H)>, i: int)
    requires
        0 <= i < s.len(),
    ensures
        key_set(s) == key_set(s.remove(i)).insert(s[i].0),
{
    s.remove_ensures(i);
    let r = s.remove(i);
    assert forall|k: Seq<char>| key_set(s).contains(k) implies key_set(r).insert(
        s[i].0,
    ).contains(k) by {
        let j = choose|j: int| 0 <= j < s.len() && (#[trigger] s[j]).0 == k;
        if j < i {
            assert((r[j]).0 == k);
        } else if j > i {
            assert((r[j - 1]).0 == k);
        }
    }
    assert forall|k: Seq<char>| key_set(r).insert(s[i].0).contains(k) implies key_set(
        s,
    ).contains(k) by {
        if k == s[i].0 {
            assert((s[i]).0 == k);
        } else {
            let j = choose|j: int| 0 <= j < r.len() && (#[trigger] r[j]).0 == k;
            let sj: int = if j < i { j } else { j + 1 };
            assert((s[sj]).0 == k);
        }
    }
    assert(key_set(s) =~= key_set(r).insert(s[i].0));
}

/// Appending an entry adds exactly its path to the path set.
proof fn lemma_key_set_push<H>(s: Seq<(Seq<char>, H)>, e: (Seq<char>, H))
    ensures
        key_set(s.push(e)) == key_set(s).insert(e.0),
{
    assert forall|k: Seq<char>| key_set(s.push(e)).contains(k) implies key_set(s).insert(
        e.0,
    ).contains(k) by {
        let j = choose|j: int| 0 <= j < s.push(e).len() && (#[trigger] s.push(e)[j]).0 == k;
        if j < s.len() {
            assert((s[j]).0 == k);
        }
    }
    assert forall|k: Seq<char>| key_set(s).insert(e.0).contains(k) implies key_set(
        s.push(e),
    ).contains(k) by {
        if k == e.0 {
            assert((s.push(e)[s.len() as int]).0 == k);
        } else {
            let j = choose|j: int| 0 <= j < s.len() && (#[trigger] s[j]).0 == k;
            assert((s.push(e)[j]).0 == k);
        }
    }
    assert(key_set(s.push(e)) =~= key_set(s).insert(e.0));
}

/// Walking one path past index `j` moves that path from the remaining set.
proof fn lemma_path_set_skip(s: Seq<Seq<char>>, j: int)
    requires
        0 <= j < s.len(),
    ensures
        path_set(s.skip(j)) == path_set(s.skip(j + 1)).insert(s[j]),
{
    assert forall|k: Seq<char>| path_set(s.skip(j)).contains(k) implies path_set(
        s.skip(j + 1),
    ).insert(s[j]).contains(k) by {
        let x = choose|x: int| 0 <= x < s.skip(j).len() && (#[trigger] s.skip(j)[x]) == k;
        assert(s.skip(j)[x] == s[j + x]);
        if x > 0 {
            assert(s.skip(j + 1)[x - 1] == s[j + x]);
        }
    }
    assert forall|k: Seq<char>| path_set(s.skip(j + 1)).insert(s[j]).contains(k) implies path_set(
        s.skip(j),
    ).contains(k) by {
        if k == s[j] {
            assert(s.skip(j)[0] == s[j]);
        } else {
            let x = choose|x: int| 0 <= x < s.skip(j + 1).len() && (#[trigger] s.skip(j + 1)[x]) == k;
            assert(s.skip(j + 1)[x] == s[j + 1 + x]);
            assert(s.skip(j)[x + 1] == s[j + 1 + x]);
        }
    }
    assert(path_set(s.skip(j)) =~= path_set(s.skip(j + 1)).insert(s[j]));
}

/// Find the index of the entry carrying `path`, if any.
fn find_index<H>(entries: &Vec<(String, H)>, path: &str) -> (r: Option<usize>)
    ensures
        match r {
            Option::Some(i) => i < entries@.len() && entries@[i as int].0@ == path@,
            Option::None => forall|j: int|
                0 <= j < entries@.len() ==> (#[trigger] entries@[j]).0@ != path@,
        },
{
    let p: String = path.to_owned();
    let n = entries.len();
    let mut i: usize = 0;
    while i < n
        invariant
            n == entries@.len(),
            i <= n,
            p@ == path@,
            forall|j: int| 0 <= j < i ==> (#[trigger] entries@[j]).0@ != path@,
        decreases n - i,
    {
        if entries[i].0 == p {
            return Some(i);
        }
        i = i + 1;
    }
    None
}

/// Helper to load a group of assets together and wait for completion of all
/// without having to manually poll each asset individually.
///
/// One instance owns one in-flight batch; instances are independent. The
/// loader keeps every resolved handle until it is consumed with
/// [`Loader::take`] or the loader is [`Loader::reset`].
#[derive(Debug)]
pub struct Loader<H> {
    /// Loader state.
    state: State,
    /// Number of pending load requests that did not resolve yet.
    count: usize,
    /// Requests not yet handed to the asset source.
    request_queue: Vec<String>,
    /// Requests being loaded by the asset source.
    work_queue: Vec<(String, H)>,
    /// Resolved requests, kept until consumed; paths are unique.
    complete_queue: Vec<(String, H)>,
}

impl<H> View for Loader<H> {
    type V = LoaderModel<H>;

    closed spec fn view(&self) -> LoaderModel<H> {
        LoaderModel {
            state: self.state,
            requests: self.request_paths(),
            work: self.work_entries(),
            complete: entry_map(self.complete_entries()),
        }
    }
}

impl<H> Loader<H> {
    /// The enqueued paths, as mathematical sequences.
    spec fn request_paths(&self) -> Seq<Seq<char>> {
        self.request_queue@.map_values(|p: String| p@)
    }

    /// The in-flight (path, handle) entries, with paths as sequences.
    spec fn work_entries(&self) -> Seq<(Seq<char>, H)> {
        self.work_queue@.map_values(|e: (String, H)| (e.0@, e.1))
    }

    /// The resolved (path, handle) entries, with paths as sequences.
    spec fn complete_entries(&self) -> Seq<(Seq<char>, H)> {
        self.complete_queue@.map_values(|e: (String, H)| (e.0@, e.1))
    }

    /// Internal consistency: the pending counter equals the number of
    /// unresolved entries, a finished batch has none left, an idle loader
    /// holds no in-flight work or stale results, and resolved paths are
    /// unique.
    pub closed spec fn wf(&self) -> bool {
        &&& self.count as nat == self.request_queue@.len() + self.work_queue@.len()
        &&& (self.state == State::Done ==> self.count == 0)
        &&& (self.state == State::Ready ==> self.work_queue@.len() == 0
            && self.complete_queue@.len() == 0)
        &&& unique_keys(self.complete_entries())
    }

    /// A fresh loader: idle, with nothing enqueued, in flight or resolved.
    pub fn new() -> (r: Loader<H>)
        ensures
            r.wf(),
            r@.state == State::Ready,
            r@.requests =~= Seq::<Seq<char>>::empty(),
            r@.work =~= Seq::<(Seq<char>, H)>::empty(),
            r@.complete =~= Map::<Seq<char>, H>::empty(),
            r@.pending() == 0,
    {
        Loader {
            state: State::Ready,
            count: 0,
            request_queue: Vec::new(),
            work_queue: Vec::new(),
            complete_queue: Vec::new(),
        }
    }

    /// Reset the loader to its idle state, unconditionally: all queued,
    /// in-flight and resolved entries of the batch are forgotten, and a new
    /// batch can be enqueued. The asset source may keep already loaded assets
    /// resident; the loader simply drops its handles to them.
    pub fn reset(&mut self)
        ensures
            final(self).wf(),
            final(self)@.state == State::Ready,
            final(self)@.requests =~= Seq::<Seq<char>>::empty(),
            final(self)@.work =~= Seq::<(Seq<char>, H)>::empty(),
            final(self)@.complete =~= Map::<Seq<char>, H>::empty(),
            final(self)@.pending() == 0,
    {
        self.request_queue.clear();
        self.work_queue.clear();
        self.count = 0;
        self.complete_queue.clear();
        self.state = State::Ready;
    }

    /// Enqueue one asset loading request. Legal only while the loader is
    /// idle; enqueuing the same path twice makes two independent requests.
    pub fn enqueue(&mut self, path: &str)
        requires
            old(self).wf(),
            old(self)@.state == State::Ready,
            old(self)@.requests.len() < usize::MAX,
        ensures
            final(self).wf(),
            final(self)@.state == State::Ready,
            final(self)@.requests =~= old(self)@.requests.push(path@),
            final(self)@.work == old(self)@.work,
            final(self)@.complete == old(self)@.complete,
            final(self)@.pending() == old(self)@.pending() + 1,
    {
        self.request_queue.push(path.to_owned());
        self.count = self.count + 1;
    }

    /// Freeze the batch: no more requests are accepted until a reset, and
    /// subsequent polls will drive the batch to completion. Legal only while
    /// the loader is idle.
    pub fn submit(&mut self)
        requires
            old(self).wf(),
            old(self)@.state == State::Ready,
        ensures
            final(self).wf(),
            final(self)@.state == State::Loading,
            final(self)@.requests == old(self)@.requests,
            final(self)@.work.len() == 0,
            final(self)@.complete =~= Map::<Seq<char>, H>::empty(),
            final(self)@.pending() == old(self)@.requests.len(),
    {
        self.state = State::Loading;
    }

    /// Number of requests of the current batch that have not resolved yet.
    pub fn pending_count(&self) -> (r: usize)
        requires
            self.wf(),
        ensures
            r as nat == self@.pending(),
    {
        self.count
    }

    /// Is there no pending request? Usable even before a submit.
    pub fn is_empty(&self) -> (r: bool)
        requires
            self.wf(),
        ensures
            r == (self@.pending() == 0),
    {
        self.pending_count() == 0
    }

    /// Is the current batch done? A pure read; never true before the poll
    /// that resolves the batch's last request, and never reverts to false
    /// without a reset.
    pub fn is_done(&self) -> (r: bool)
        ensures
            r == (self@.state == State::Done),
    {
        self.state == State::Done
    }

    /// Has the request for `path` resolved, with its handle still held?
    pub fn is_loaded(&self, path: &str) -> (r: bool)
        ensures
            r == self@.complete.dom().contains(path@),
    {
        proof {
            lemma_entry_map_dom(self.complete_entries());
        }
        match find_index(&self.complete_queue, path) {
            Some(i) => {
                proof {
                    assert((self.complete_entries()[i as int]).0 == path@);
                }
                true
            },
            None => {
                proof {
                    assert(!self@.complete.dom().contains(path@)) by {
                        if self@.complete.dom().contains(path@) {
                            let j = choose|j: int|
                                0 <= j < self.complete_entries().len() && (
                                #[trigger] self.complete_entries()[j]).0 == path@;
                            assert((self.complete_queue@[j]).0@ == path@);
                        }
                    }
                }
                false
            },
        }
    }

    /// Record `handle` as the resolved result for `path`, replacing any
    /// earlier result for the same path (the last resolution wins).
    fn complete_insert(&mut self, path: String, handle: H)
        requires
            unique_keys(old(self).complete_entries()),
        ensures
            unique_keys(final(self).complete_entries()),
            entry_map(final(self).complete_entries()) == entry_map(
                old(self).complete_entries(),
            ).insert(path@, handle),
            final(self).state == old(self).state,
            final(self).count == old(self).count,
            final(self).request_queue == old(self).request_queue,
            final(self).work_queue == old(self).work_queue,
    {
        let ghost pre = self.complete_entries();
        match find_index(&self.complete_queue, path.as_str()) {
            Some(i) => {
                proof {
                    assert((pre[i as int]).0 == path@);
                    lemma_entry_map_remove(pre, i as int);
                    self.complete_queue@.remove_ensures(i as int);
                    pre.remove_ensures(i as int);
                }
                let _stale = self.complete_queue.remove(i);
                proof {
                    assert(self.complete_entries() =~= pre.remove(i as int));
                    assert forall|j: int| 0 <= j < pre.remove(i as int).len() implies (
                    #[trigger] pre.remove(i as int)[j]).0 != path@ by {
                        if j < i {
                            assert(pre.remove(i as int)[j] == pre[j]);
                        } else {
                            assert(pre.remove(i as int)[j] == pre[j + 1]);
                        }
                    }
                }
                self.complete_queue.push((path, handle));
                proof {
                    let r = pre.remove(i as int);
                    assert(self.complete_entries() =~= r.push((path@, handle)));
                    lemma_entry_map_push(r, (path@, handle));
                    lemma_unique_keys_push(r, (path@, handle));
                    assert(entry_map(pre).remove(path@).insert(path@, handle) =~= entry_map(
                        pre,
                    ).insert(path@, handle));
                }
            },
            None => {
                proof {
                    assert forall|j: int| 0 <= j < pre.len() implies (#[trigger] pre[j]).0
                        != path@ by {
                        assert((pre[j]).0 == (self.complete_queue@[j]).0@);
                    }
                }
                self.complete_queue.push((path, handle));
                proof {
                    assert(self.complete_entries() =~= pre.push((path@, handle)));
                    lemma_entry_map_push(pre, (path@, handle));
                    lemma_unique_keys_push(pre, (path@, handle));
                }
            },
        }
    }

    /// Take the resolved handle for `path`, if there is one, removing it
    /// from the loader: the loader forgets that path entirely, so a second
    /// take for the same path finds nothing. A failed load still yields its
    /// handle here; the caller decides what to make of it.
    pub fn take(&mut self, path: &str) -> (r: Option<H>)
        requires
            old(self).wf(),
        ensures
            final(self).wf(),
            final(self)@.state == old(self)@.state,
            final(self)@.requests == old(self)@.requests,
            final(self)@.work == old(self)@.work,
            final(self)@.pending() == old(self)@.pending(),
            match r {
                Option::Some(h) => {
                    &&& old(self)@.complete.dom().contains(path@)
                    &&& h == old(self)@.complete[path@]
                    &&& final(self)@.complete == old(self)@.complete.remove(path@)
                },
                Option::None => {
                    &&& !old(self)@.complete.dom().contains(path@)
                    &&& *final(self) == *old(self)
                },
            },
    {
        let ghost pre = self.complete_entries();
        proof {
            lemma_entry_map_dom(pre);
        }
        match find_index(&self.complete_queue, path) {
            Some(i) => {
                proof {
                    assert((pre[i as int]).0 == path@);
                    lemma_entry_map_get(pre, i as int);
                    lemma_entry_map_remove(pre, i as int);
                    self.complete_queue@.remove_ensures(i as int);
                    pre.remove_ensures(i as int);
                }
                let e = self.complete_queue.remove(i);
                proof {
                    assert(self.complete_entries() =~= pre.remove(i as int));
                    assert(e.1 == (pre[i as int]).1);
                }
                Some(e.1)
            },
            None => {
                proof {
                    assert(!old(self)@.complete.dom().contains(path@)) by {
                        if entry_map(pre).dom().contains(path@) {
                            let j = choose|j: int|
                                0 <= j < pre.len() && (#[trigger] pre[j]).0 == path@;
                            assert((self.complete_queue@[j]).0@ == path@);
                        }
                    }
                }
                None
            },
        }
    }

    /// Drive the current batch one tick forward: check every in-flight
    /// request against the asset source and move the resolved ones into the
    /// completion map, then dispatch the freshly enqueued paths in FIFO
    /// order, resolving right away those the source already reports as
    /// terminal. The loader flips to `Done` on the poll in which the last
    /// pending request resolves — in particular on the very first poll of an
    /// empty batch — and never flips back without a reset.
    ///
    /// Safe to call in any state: before a submit, or once done, a poll
    /// changes nothing at all.
    pub fn poll<S: AssetSource<H>>(&mut self, source: &mut S)
        requires
            old(self).wf(),
        ensures
            final(self).wf(),
            old(self)@.state != State::Loading ==> *final(self) == *old(self),
            old(self)@.state == State::Loading ==> poll_step(old(self)@, final(self)@),
    {
        if self.state != State::Loading {
            return;
        }
        let ghost pre = *self;
        // Check in-flight requests and move the resolved ones out.
        let mut i: usize = 0;
        while i < self.work_queue.len()
            invariant
                self.state == State::Loading,
                i <= self.work_queue@.len(),
                self.count as nat == self.request_queue@.len() + self.work_queue@.len(),
                self.count <= pre.count,
                pre.wf(),
                pre.state == State::Loading,
                self.request_queue == pre.request_queue,
                unique_keys(self.complete_entries()),
                entry_map(pre.complete_entries()).dom().subset_of(
                    entry_map(self.complete_entries()).dom(),
                ),
                entry_map(self.complete_entries()).dom().union(key_set(self.work_entries()))
                    == entry_map(pre.complete_entries()).dom().union(
                    key_set(pre.work_entries()),
                ),
                forall|x: int|
                    0 <= x < self.work_entries().len() ==> pre.work_entries().contains(
                        #[trigger] self.work_entries()[x],
                    ),
                forall|p: Seq<char>|
                    #[trigger] entry_map(self.complete_entries()).dom().contains(p) ==> {
                        ||| (entry_map(pre.complete_entries()).dom().contains(p) && entry_map(
                            self.complete_entries(),
                        )[p] == entry_map(pre.complete_entries())[p])
                        ||| pre.work_entries().contains((p, entry_map(self.complete_entries())[p]))
                    },
            decreases self.work_queue@.len() - i,
        {
            let st = source.query_state(&self.work_queue[i].1);
            if load_state_is_resolved(st) {
                let ghost wpre = self.work_entries();
                let ghost cpre = self.complete_entries();
                proof {
                    lemma_key_set_remove(wpre, i as int);
                    self.work_queue@.remove_ensures(i as int);
                    wpre.remove_ensures(i as int);
                }
                let e = self.work_queue.remove(i);
                self.count = self.count - 1;
                proof {
                    assert(self.work_entries() =~= wpre.remove(i as int));
                    assert(e.0@ == (wpre[i as int]).0);
                    assert(e.1 == (wpre[i as int]).1);
                }
                self.complete_insert(e.0, e.1);
                proof {
                    assert(entry_map(self.complete_entries()).dom().union(
                        key_set(self.work_entries()),
                    ) =~= entry_map(cpre).dom().union(key_set(wpre)));
                    assert forall|x: int|
                        0 <= x < self.work_entries().len() implies pre.work_entries().contains(
                        #[trigger] self.work_entries()[x],
                    ) by {
                        if x < i {
                            assert(self.work_entries()[x] == wpre[x]);
                        } else {
                            assert(self.work_entries()[x] == wpre[x + 1]);
                        }
                    }
                    assert forall|p: Seq<char>|
                        #[trigger] entry_map(self.complete_entries()).dom().contains(
                            p,
                        ) implies {
                        ||| (entry_map(pre.complete_entries()).dom().contains(p) && entry_map(
                            self.complete_entries(),
                        )[p] == entry_map(pre.complete_entries())[p])
                        ||| pre.work_entries().contains((p, entry_map(self.complete_entries())[p]))
                    } by {
                        let cm = entry_map(self.complete_entries());
                        let cpm = entry_map(cpre);
                        if p == (wpre[i as int]).0 {
                            assert(cm[p] == (wpre[i as int]).1);
                            assert(pre.work_entries().contains(wpre[i as int]));
                        } else {
                            assert(cpm.dom().contains(p));
                            assert(cm[p] == cpm[p]);
                        }
                    }
                }
            } else {
                i = i + 1;
            }
        }
        // Take over the request queue wholesale and dispatch it.
        let mut reqs: Vec<String> = Vec::new();
        core::mem::swap(&mut self.request_queue, &mut reqs);
        let ghost m = pre.request_paths();
        proof {
            assert(m.skip(0) =~= m);
        }
        let n = reqs.len();
        let mut j: usize = 0;
        while j < n
            invariant
                self.state == State::Loading,
                n == reqs@.len(),
                j <= n,
                m == pre.request_paths(),
                m.len() == n,
                forall|x: int| 0 <= x < n ==> m[x] == reqs@[x]@,
                self.request_queue@.len() == 0,
                self.count as nat == (n - j) + self.work_queue@.len(),
                self.count <= pre.count,
                pre.wf(),
                pre.state == State::Loading,
                unique_keys(self.complete_entries()),
                entry_map(pre.complete_entries()).dom().subset_of(
                    entry_map(self.complete_entries()).dom(),
                ),
                entry_map(self.complete_entries()).dom().union(
                    key_set(self.work_entries()),
                ).union(path_set(m.skip(j as int))) == entry_map(
                    pre.complete_entries(),
                ).dom().union(key_set(pre.work_entries())).union(path_set(m)),
                forall|x: int|
                    0 <= x < self.work_entries().len() ==> pre.work_entries().contains(
                        #[trigger] self.work_entries()[x],
                    ) || path_set(m).contains(self.work_entries()[x].0),
                forall|p: Seq<char>|
                    #[trigger] entry_map(self.complete_entries()).dom().contains(p) ==> {
                        ||| (entry_map(pre.complete_entries()).dom().contains(p) && entry_map(
                            self.complete_entries(),
                        )[p] == entry_map(pre.complete_entries())[p])
                        ||| pre.work_entries().contains((p, entry_map(self.complete_entries())[p]))
                        ||| path_set(m).contains(p)
                    },
            decreases n - j,
        {
            let path: String = reqs[j].clone();
            proof {
                lemma_path_set_skip(m, j as int);
                assert(path@ == m[j as int]);
            }
            let (h, st) = source.begin_load(path.as_str());
            if load_state_is_resolved(st) {
                let ghost cpre = self.complete_entries();
                self.count = self.count - 1;
                self.complete_insert(path, h);
                proof {
                    assert(entry_map(self.complete_entries()).dom().union(
                        key_set(self.work_entries()),
                    ).union(path_set(m.skip(j + 1))) =~= entry_map(cpre).dom().union(
                        key_set(self.work_entries()),
                    ).union(path_set(m.skip(j as int))));
                    assert forall|p: Seq<char>|
                        #[trigger] entry_map(self.complete_entries()).dom().contains(
                            p,
                        ) implies {
                        ||| (entry_map(pre.complete_entries()).dom().contains(p) && entry_map(
                            self.complete_entries(),
                        )[p] == entry_map(pre.complete_entries())[p])
                        ||| pre.work_entries().contains((p, entry_map(self.complete_entries())[p]))
                        ||| path_set(m).contains(p)
                    } by {
                        let cm = entry_map(self.complete_entries());
                        let cpm = entry_map(cpre);
                        if p == m[j as int] {
                            assert(path_set(m).contains(p));
                        } else {
                            assert(cpm.dom().contains(p));
                            assert(cm[p] == cpm[p]);
                        }
                    }
                }
            } else {
                let ghost wpre = self.work_entries();
                self.work_queue.push((path, h));
                proof {
                    assert(self.work_entries() =~= wpre.push((m[j as int], h)));
                    lemma_key_set_push(wpre, (m[j as int], h));
                    assert(entry_map(self.complete_entries()).dom().union(
                        key_set(self.work_entries()),
                    ).union(path_set(m.skip(j + 1))) =~= entry_map(
                        self.complete_entries(),
                    ).dom().union(key_set(wpre)).union(path_set(m.skip(j as int))));
                    assert forall|x: int|
                        0 <= x < self.work_entries().len() implies pre.work_entries().contains(
                        #[trigger] self.work_entries()[x],
                    ) || path_set(m).contains(self.work_entries()[x].0) by {
                        if x < wpre.len() {
                            assert(self.work_entries()[x] == wpre[x]);
                        } else {
                            assert(self.work_entries()[x] == (m[j as int], h));
                            assert(path_set(m).contains(m[j as int]));
                        }
                    }
                }
            }
            j = j + 1;
        }
        proof {
            assert(m.skip(n as int).len() == 0);
            assert(path_set(m.skip(n as int)) =~= Set::<Seq<char>>::empty());
            assert(entry_map(self.complete_entries()).dom().union(
                key_set(self.work_entries()),
            ) =~= entry_map(self.complete_entries()).dom().union(
                key_set(self.work_entries()),
            ).union(path_set(m.skip(n as int))));
        }
        // All pending requests resolved: the whole batch is done, exactly once.
        if self.count == 0 {
            self.state = State::Done;
        }
    }
}

} // verus!
