//! Batched queries against the tracker: the keys go out in chunks no
//! larger than the tracker's limit; a chunk in which the tracker rejects
//! one key is sent again without that key, a bounded number of times.
//!
//! `BatchQuery` holds the state of one such query. It never talks to the
//! tracker itself: it names the keys of the next request and takes the
//! reply to it, so that whoever drives it performs the requests. As the
//! replies come in it notes which key was answered by which entry, and
//! which keys the tracker was found not to know, in the order in which
//! that was found.

use crate::rutracker_api::{extract_invalid_hash, invalid_hash_in};
use crate::text::texts;
use vstd::prelude::*;

verus! {

/// How often one chunk is sent at most.
pub const MAX_ATTEMPTS_PER_CHUNK: u8 = 5;

/// The chunk size used where the tracker does not tell its limit.
pub const DEFAULT_LIMIT: usize = 20;

/// The chunk size to work with: the limit that the tracker told, or the
/// default where asking for it failed.
pub fn effective_limit(discovered: Option<u32>) -> (limit: usize)
    ensures
        limit == match discovered {
            Some(told) => told as usize,
            None => DEFAULT_LIMIT,
        },
{
    match discovered {
        Some(told) => told as usize,
        None => DEFAULT_LIMIT,
    }
}

/// The tracker's reply to one request.
#[derive(Clone, Debug)]
pub enum BatchReply<V> {
    /// The answered keys, each with its value or with nothing where the
    /// tracker has no record of the key.
    Success(Vec<(String, Option<V>)>),
    /// The tracker's own error, with its text.
    Error(String),
    /// The request did not get through, or its answer could not be read.
    Failed,
}

/// A reply as plain values.
pub enum BatchReplyView<V> {
    Success(Seq<(Seq<char>, Option<V>)>),
    Error(Seq<char>),
    Failed,
}

/// The keys and values that a sequence of entries holds.
pub open spec fn entry_views<V>(entries: Seq<(String, Option<V>)>) -> Seq<(Seq<char>, Option<V>)> {
    entries.map_values(|e: (String, Option<V>)| (e.0@, e.1))
}

impl<V> View for BatchReply<V> {
    type V = BatchReplyView<V>;

    open spec fn view(&self) -> BatchReplyView<V> {
        match self {
            BatchReply::Success(entries) => BatchReplyView::Success(entry_views(entries@)),
            BatchReply::Error(text) => BatchReplyView::Error(text@),
            BatchReply::Failed => BatchReplyView::Failed,
        }
    }
}

/// `i` is the first index at which `items` holds `item`.
pub open spec fn is_first_index_of(items: Seq<Seq<char>>, item: Seq<char>, i: int) -> bool {
    &&& 0 <= i < items.len()
    &&& items[i] == item
    &&& forall|j: int| 0 <= j < i ==> items[j] != item
}

/// The first index at which `items` holds `item`, if it holds it at all.
pub open spec fn position_of(items: Seq<Seq<char>>, item: Seq<char>) -> Option<int> {
    if exists|i: int| is_first_index_of(items, item, i) {
        Some(choose|i: int| is_first_index_of(items, item, i))
    } else {
        None
    }
}

/// A first index, once found, is the one that `position_of` names.
pub proof fn lemma_position_found(items: Seq<Seq<char>>, item: Seq<char>, i: int)
    requires
        is_first_index_of(items, item, i),
    ensures
        position_of(items, item) == Some(i),
{
    let k = choose|k: int| is_first_index_of(items, item, k);
    assert(items[k] == item);
    assert(items[i] == item);
}

/// What `entries` say of `key`: the value of the last entry for it.
pub open spec fn lookup<V>(entries: Seq<(Seq<char>, Option<V>)>, key: Seq<char>) -> Option<Option<V>>
    decreases entries.len(),
{
    if entries.len() == 0 {
        None
    } else if entries.last().0 == key {
        Some(entries.last().1)
    } else {
        lookup(entries.drop_last(), key)
    }
}

/// Where the entry that counts for `key` stands among `entries`: the
/// index of the last entry for it.
pub open spec fn last_entry_for<V>(entries: Seq<(Seq<char>, Option<V>)>, key: Seq<char>) -> Option<int>
    decreases entries.len(),
{
    if entries.len() == 0 {
        None
    } else if entries.last().0 == key {
        Some(entries.len() - 1)
    } else {
        last_entry_for(entries.drop_last(), key)
    }
}

/// What `entries` say of a key is the value of the last entry for it.
pub proof fn lemma_lookup_is_last_entry<V>(entries: Seq<(Seq<char>, Option<V>)>, key: Seq<char>)
    ensures
        match last_entry_for(entries, key) {
            Some(i) => 0 <= i < entries.len() && entries[i].0 == key && lookup(entries, key) == Some(
                entries[i].1,
            ),
            None => lookup(entries, key) is None,
        },
    decreases entries.len(),
{
    if entries.len() > 0 && entries.last().0 != key {
        lemma_lookup_is_last_entry(entries.drop_last(), key);
    }
}

/// The numbers that a sequence of indices holds.
pub open spec fn places(indices: Seq<usize>) -> Seq<nat> {
    indices.map_values(|i: usize| i as nat)
}

/// The pairs of numbers that a sequence of index pairs holds.
pub open spec fn place_pairs(pairs: Seq<(usize, usize)>) -> Seq<(nat, nat)> {
    pairs.map_values(|p: (usize, usize)| (p.0 as nat, p.1 as nat))
}

/// What a reply tells of the pending keys: for each pending key that the
/// reply has an entry for, in pending order, the place of the key among
/// all keys and the index that the entry gets among the values, where
/// the reply's entries come to stand from `offset` on.
pub open spec fn answers_in<V>(
    work: Seq<Seq<char>>,
    work_at: Seq<nat>,
    entries: Seq<(Seq<char>, Option<V>)>,
    offset: nat,
) -> Seq<(nat, nat)>
    decreases work.len(),
{
    if work.len() == 0 {
        Seq::empty()
    } else {
        let earlier = answers_in(work.drop_last(), work_at.drop_last(), entries, offset);
        match last_entry_for(entries, work.last()) {
            Some(e) => earlier.push((work_at.last(), (offset + e) as nat)),
            None => earlier,
        }
    }
}

/// The places of the pending keys of which a reply says that the tracker
/// has no record, in pending order.
pub open spec fn nulls_in<V>(
    work: Seq<Seq<char>>,
    work_at: Seq<nat>,
    entries: Seq<(Seq<char>, Option<V>)>,
) -> Seq<nat>
    decreases work.len(),
{
    if work.len() == 0 {
        Seq::empty()
    } else {
        let earlier = nulls_in(work.drop_last(), work_at.drop_last(), entries);
        if lookup(entries, work.last()) matches Some(None) {
            earlier.push(work_at.last())
        } else {
            earlier
        }
    }
}

/// The state of a batched query, as plain values.
pub struct BatchQueryView<V> {
    /// All keys of the query, in the order in which they are sent.
    pub keys: Seq<Seq<char>>,
    /// The largest number of keys in one request.
    pub limit: nat,
    /// How many of the keys belong to the current chunk or to an earlier one.
    pub sent: nat,
    /// The keys of the current chunk that are still asked for. The query
    /// is over when there are none.
    pub work: Seq<Seq<char>>,
    /// The place of each pending key among all keys.
    pub work_at: Seq<nat>,
    /// How many requests for the current chunk were rejected over one of
    /// its keys.
    pub attempts: nat,
    /// The entries of every successful reply, in the order of arrival.
    pub values: Seq<(Seq<char>, Option<V>)>,
    /// The keys that the tracker rejected, in the order of rejection.
    pub rejected: Seq<Seq<char>>,
    /// Which key was answered by which of the values: the place of the
    /// key among all keys and the index of the entry among the values, for
    /// every key that the reply to its own chunk had an entry for.
    pub told: Seq<(nat, nat)>,
    /// The places of the keys that the tracker was found not to know, in
    /// the order in which that was found: a rejected key when it was
    /// rejected, a key answered with no record when the reply to its
    /// chunk came in.
    pub unknown: Seq<nat>,
}

impl<V> BatchQueryView<V> {
    /// Nothing is left to ask.
    pub open spec fn finished(self) -> bool {
        self.work.len() == 0
    }

    /// Where the chunk after the current one ends.
    pub open spec fn next_end(self) -> nat {
        if self.sent + self.limit <= self.keys.len() {
            self.sent + self.limit
        } else {
            self.keys.len()
        }
    }

    /// Leaves the current chunk and takes up the next one: up to `limit`
    /// of the keys not yet sent.
    pub open spec fn open_chunk(self) -> Self {
        BatchQueryView {
            sent: self.next_end(),
            work: self.keys.subrange(self.sent as int, self.next_end() as int),
            work_at: Seq::new((self.next_end() - self.sent) as nat, |j: int| (self.sent + j) as nat),
            attempts: 0,
            ..self
        }
    }

    /// The query before its first request.
    pub open spec fn start(keys: Seq<Seq<char>>, limit: nat) -> Self {
        BatchQueryView {
            keys,
            limit,
            sent: 0,
            work: Seq::empty(),
            work_at: Seq::empty(),
            attempts: 0,
            values: Seq::empty(),
            rejected: Seq::empty(),
            told: Seq::empty(),
            unknown: Seq::empty(),
        }.open_chunk()
    }

    /// The query after the tracker rejected the key at index `at` of the
    /// current request: the key is set aside as rejected and as unknown,
    /// and the rest of the chunk is asked for again unless nothing is left
    /// of it or it has been sent as often as allowed.
    pub open spec fn reject(self, at: int) -> Self {
        let struck = BatchQueryView {
            work: self.work.remove(at),
            work_at: self.work_at.remove(at),
            rejected: self.rejected.push(self.work[at]),
            unknown: self.unknown.push(self.work_at[at]),
            attempts: self.attempts + 1,
            ..self
        };
        if struck.work.len() == 0 || struck.attempts >= MAX_ATTEMPTS_PER_CHUNK {
            struck.open_chunk()
        } else {
            struck
        }
    }

    /// The query after `reply` to its pending request.
    ///
    /// A successful reply adds its entries to the values, notes which
    /// pending key it answered with which entry and which pending keys it
    /// answered with no record, and ends the chunk. An error that names a
    /// key of the request sets that key aside. Any other reply ends the
    /// chunk with nothing gained.
    pub open spec fn receive(self, reply: BatchReplyView<V>) -> Self {
        if self.finished() {
            self
        } else {
            match reply {
                BatchReplyView::Success(entries) => BatchQueryView {
                    values: self.values + entries,
                    told: self.told + answers_in(
                        self.work,
                        self.work_at,
                        entries,
                        self.values.len(),
                    ),
                    unknown: self.unknown + nulls_in(self.work, self.work_at, entries),
                    ..self
                }.open_chunk(),
                BatchReplyView::Error(text) => match invalid_hash_in(text) {
                    Some(bad) => match position_of(self.work, bad) {
                        Some(at) => self.reject(at),
                        None => self.open_chunk(),
                    },
                    None => self.open_chunk(),
                },
                BatchReplyView::Failed => self.open_chunk(),
            }
        }
    }

    /// The query after the replies to its requests, one after another.
    pub open spec fn run(self, replies: Seq<BatchReplyView<V>>) -> Self
        decreases replies.len(),
    {
        if replies.len() == 0 {
            self
        } else {
            self.run(replies.drop_last()).receive(replies.last())
        }
    }

    /// What holds of every query in progress.
    pub open spec fn wf(self) -> bool {
        &&& self.limit > 0 || self.keys.len() == 0
        &&& self.sent <= self.keys.len()
        &&& self.finished() ==> self.sent == self.keys.len()
        &&& self.finished() ==> self.attempts == 0
        &&& self.attempts < MAX_ATTEMPTS_PER_CHUNK
        &&& self.work.len() + self.attempts <= self.limit
        &&& self.work_at.len() == self.work.len()
        &&& forall|j: int|
            0 <= j < self.work.len() ==> (#[trigger] self.work_at[j]) < self.sent
                && self.keys[self.work_at[j] as int] == self.work[j]
    }

    /// What holds of the notes of every query in progress: the pending
    /// keys stand in the order of their places; what is noted concerns
    /// keys of earlier chunks, or keys struck from the current one, and
    /// points into the keys and the values; no key is found unknown
    /// twice; and a key found unknown was never answered with a value.
    pub open spec fn notes_agree(self) -> bool {
        &&& forall|i: int, j: int|
            0 <= i < j < self.work_at.len() ==> self.work_at[i] < self.work_at[j]
        &&& forall|u: int, w: int|
            0 <= u < w < self.unknown.len() ==> self.unknown[u] != self.unknown[w]
        &&& forall|k: int, j: int|
            0 <= k < self.told.len() && 0 <= j < self.work_at.len() ==> (#[trigger] self.told[k]).0
                < #[trigger] self.work_at[j]
        &&& forall|u: int, j: int|
            0 <= u < self.unknown.len() && 0 <= j < self.work_at.len()
                ==> #[trigger] self.unknown[u] != #[trigger] self.work_at[j]
        &&& forall|k: int|
            0 <= k < self.told.len() ==> (#[trigger] self.told[k]).0 < self.sent && self.told[k].1
                < self.values.len()
        &&& forall|u: int| 0 <= u < self.unknown.len() ==> #[trigger] self.unknown[u] < self.sent
        &&& forall|u: int, k: int|
            0 <= u < self.unknown.len() && 0 <= k < self.told.len() && (#[trigger] self.told[k]).0
                == #[trigger] self.unknown[u] ==> self.values[self.told[k].1 as int].1 is None
    }
}

/// The number of chunks that `n` keys make at `limit` keys a chunk.
pub open spec fn chunk_count(n: nat, limit: nat) -> nat {
    if limit == 0 {
        0
    } else {
        ((n + limit - 1) / (limit as int)) as nat
    }
}

/// Every one of `replies` is a success.
pub open spec fn all_success<V>(replies: Seq<BatchReplyView<V>>) -> bool {
    forall|i: int| 0 <= i < replies.len() ==> #[trigger] replies[i] is Success
}

/// The entries of the successful replies among `replies`, in their order.
pub open spec fn gathered<V>(replies: Seq<BatchReplyView<V>>) -> Seq<(Seq<char>, Option<V>)>
    decreases replies.len(),
{
    if replies.len() == 0 {
        Seq::empty()
    } else {
        gathered(replies.drop_last()) + match replies.last() {
            BatchReplyView::Success(entries) => entries,
            _ => Seq::empty(),
        }
    }
}

/// `reply` is the tracker's error over a key that `query` is asking for.
pub open spec fn rejects_pending_key<V>(query: BatchQueryView<V>, reply: BatchReplyView<V>) -> bool {
    &&& reply matches BatchReplyView::Error(text)
    &&& invalid_hash_in(text) matches Some(bad)
    &&& position_of(query.work, bad) is Some
}

/// The largest number of requests that `query` can still make.
pub open spec fn requests_left<V>(query: BatchQueryView<V>) -> nat {
    if query.finished() {
        0
    } else {
        (MAX_ATTEMPTS_PER_CHUNK - query.attempts + MAX_ATTEMPTS_PER_CHUNK * chunk_count(
            (query.keys.len() - query.sent) as nat,
            query.limit,
        )) as nat
    }
}

/// `k` chunks of `limit` keys fall short of `n` keys exactly where `n` keys
/// make more than `k` chunks.
proof fn lemma_chunk_count_bounds(n: nat, limit: nat, k: nat)
    requires
        limit > 0,
    ensures
        k < chunk_count(n, limit) <==> k * limit < n,
{
    let c = chunk_count(n, limit);
    assert(c * limit <= n + limit - 1 < (c + 1) * limit) by (nonlinear_arith)
        requires
            limit > 0,
            c == (n + limit - 1) / (limit as int),
    ;
    if k < c {
        assert(k * limit < n) by (nonlinear_arith)
            requires
                k + 1 <= c,
                c * limit <= n + limit - 1,
                limit > 0,
        ;
    } else {
        assert(k * limit >= n) by (nonlinear_arith)
            requires
                k >= c,
                n + limit - 1 < (c + 1) * limit,
                limit > 0,
        ;
    }
}

/// Taking one chunk off leaves one chunk less.
proof fn lemma_chunk_count_step(m: nat, limit: nat)
    requires
        limit > 0,
        m > 0,
    ensures
        chunk_count(m, limit) == 1 + chunk_count(
            if m >= limit {
                (m - limit) as nat
            } else {
                0
            },
            limit,
        ),
{
    if m >= limit {
        let r = (m - limit) as nat;
        assert((m + limit - 1) / (limit as int) == 1 + (r + limit - 1) / (limit as int))
            by (nonlinear_arith)
            requires
                limit > 0,
                m == r + limit,
        ;
    } else {
        assert((m + limit - 1) / (limit as int) == 1) by (nonlinear_arith)
            requires
                0 < m < limit,
        ;
        assert((0 + limit - 1) / (limit as int) == 0) by (nonlinear_arith)
            requires
                limit > 0,
        ;
    }
}

/// A query that has just been created is well formed.
pub proof fn lemma_start_wf<V>(keys: Seq<Seq<char>>, limit: nat)
    requires
        limit > 0 || keys.len() == 0,
    ensures
        BatchQueryView::<V>::start(keys, limit).wf(),
{
}

/// A reply leaves a well-formed query well formed.
pub proof fn lemma_receive_wf<V>(query: BatchQueryView<V>, reply: BatchReplyView<V>)
    requires
        query.wf(),
    ensures
        query.receive(reply).wf(),
{
}

/// Replies leave a well-formed query well formed.
pub proof fn lemma_run_wf<V>(query: BatchQueryView<V>, replies: Seq<BatchReplyView<V>>)
    requires
        query.wf(),
    ensures
        query.run(replies).wf(),
    decreases replies.len(),
{
    if replies.len() > 0 {
        lemma_run_wf(query, replies.drop_last());
        lemma_receive_wf(query.run(replies.drop_last()), replies.last());
    }
}

/// A query that is over stays over: further replies change nothing.
pub proof fn lemma_finished_is_final<V>(query: BatchQueryView<V>, replies: Seq<BatchReplyView<V>>)
    requires
        query.finished(),
    ensures
        query.run(replies) == query,
    decreases replies.len(),
{
    if replies.len() > 0 {
        lemma_finished_is_final(query, replies.drop_last());
    }
}

/// Where every request succeeds, the query makes one request for each
/// chunk of its keys: it is over once as many replies have come in as the
/// keys make chunks, and not before. Each chunk is then the next `limit`
/// keys, and the values are the entries of the replies in their order.
pub proof fn lemma_success_path_requests<V>(
    keys: Seq<Seq<char>>,
    limit: nat,
    replies: Seq<BatchReplyView<V>>,
)
    requires
        limit > 0,
        all_success(replies),
        replies.len() <= chunk_count(keys.len(), limit),
    ensures
        BatchQueryView::start(keys, limit).run(replies).finished() <==> replies.len()
            == chunk_count(keys.len(), limit),
        BatchQueryView::start(keys, limit).run(replies).keys == keys,
        BatchQueryView::start(keys, limit).run(replies).limit == limit,
        BatchQueryView::start(keys, limit).run(replies).attempts == 0,
        BatchQueryView::start(keys, limit).run(replies).rejected.len() == 0,
        BatchQueryView::start(keys, limit).run(replies).values == gathered(replies),
        BatchQueryView::start(keys, limit).run(replies).sent == if (replies.len() + 1) * limit
            <= keys.len() {
            (replies.len() + 1) * limit
        } else {
            keys.len()
        },
        !BatchQueryView::start(keys, limit).run(replies).finished()
            ==> BatchQueryView::start(keys, limit).run(replies).work == keys.subrange(
            (replies.len() * limit) as int,
            if (replies.len() + 1) * limit <= keys.len() {
                ((replies.len() + 1) * limit) as int
            } else {
                keys.len() as int
            },
        ),
    decreases replies.len(),
{
    let n = keys.len();
    let k = replies.len();
    let first = BatchQueryView::<V>::start(keys, limit);
    let now = first.run(replies);
    lemma_chunk_count_bounds(n, limit, k);
    assert((k + 1) * limit == k * limit + limit) by (nonlinear_arith);
    if k == 0 {
        assert(k * limit == 0) by (nonlinear_arith)
            requires
                k == 0,
        ;
    } else {
        let earlier = replies.drop_last();
        assert(all_success(earlier)) by {
            assert forall|i: int| 0 <= i < earlier.len() implies #[trigger] earlier[i] is Success by {
                assert(earlier[i] == replies[i]);
            }
        }
        lemma_success_path_requests(keys, limit, earlier);
        lemma_chunk_count_bounds(n, limit, earlier.len());
        assert((earlier.len() + 1) * limit == k * limit) by (nonlinear_arith)
            requires
                earlier.len() + 1 == k,
        ;
        assert(earlier.len() * limit + limit == k * limit) by (nonlinear_arith)
            requires
                earlier.len() + 1 == k,
        ;
        let before = first.run(earlier);
        assert(replies.last() is Success);
        assert(!before.finished());
        let entries = replies.last()->Success_0;
        assert(now == BatchQueryView {
            values: before.values + entries,
            told: before.told + answers_in(
                before.work,
                before.work_at,
                entries,
                before.values.len(),
            ),
            unknown: before.unknown + nulls_in(before.work, before.work_at, entries),
            ..before
        }.open_chunk());
    }
}

/// `reply` is a success with a value in each of its entries.
pub open spec fn has_every_value<V>(reply: BatchReplyView<V>) -> bool {
    match reply {
        BatchReplyView::Success(entries) => forall|k: int|
            0 <= k < entries.len() ==> (#[trigger] entries[k]).1 is Some,
        _ => false,
    }
}

/// Every one of `replies` is a success with a value in each of its
/// entries.
pub open spec fn all_answered<V>(replies: Seq<BatchReplyView<V>>) -> bool {
    forall|i: int| 0 <= i < replies.len() ==> has_every_value(#[trigger] replies[i])
}

/// A reply with a value in each of its entries tells of no pending key
/// that the tracker has no record of it.
proof fn lemma_no_nulls<V>(
    work: Seq<Seq<char>>,
    work_at: Seq<nat>,
    entries: Seq<(Seq<char>, Option<V>)>,
)
    requires
        forall|k: int| 0 <= k < entries.len() ==> (#[trigger] entries[k]).1 is Some,
    ensures
        nulls_in(work, work_at, entries) == Seq::<nat>::empty(),
    decreases work.len(),
{
    if work.len() > 0 {
        lemma_no_nulls(work.drop_last(), work_at.drop_last(), entries);
        lemma_lookup_is_last_entry(entries, work.last());
    }
}

/// Where every reply is a success with a value in each of its entries,
/// the query finds every key known: none is rejected, none unknown.
pub proof fn lemma_answered_keys_are_known<V>(
    keys: Seq<Seq<char>>,
    limit: nat,
    replies: Seq<BatchReplyView<V>>,
)
    requires
        all_answered(replies),
    ensures
        BatchQueryView::start(keys, limit).run(replies).unknown.len() == 0,
        BatchQueryView::start(keys, limit).run(replies).rejected.len() == 0,
    decreases replies.len(),
{
    if replies.len() > 0 {
        let earlier = replies.drop_last();
        assert(all_answered(earlier)) by {
            assert forall|i: int| 0 <= i < earlier.len() implies has_every_value(
                #[trigger] earlier[i],
            ) by {
                assert(earlier[i] == replies[i]);
            }
        }
        lemma_answered_keys_are_known(keys, limit, earlier);
        let before = BatchQueryView::<V>::start(keys, limit).run(earlier);
        assert(has_every_value(replies[replies.len() - 1]));
        let entries = replies.last()->Success_0;
        lemma_no_nulls(before.work, before.work_at, entries);
        assert(before.unknown + Seq::<nat>::empty() =~= before.unknown);
    }
}

/// What the notes look like once a successful reply has been read for the
/// first `m` of the pending keys.
spec fn notes_after<V>(
    query: BatchQueryView<V>,
    entries: Seq<(Seq<char>, Option<V>)>,
    m: int,
) -> BatchQueryView<V> {
    BatchQueryView {
        values: query.values + entries,
        told: query.told + answers_in(
            query.work.take(m),
            query.work_at.take(m),
            entries,
            query.values.len(),
        ),
        unknown: query.unknown + nulls_in(query.work.take(m), query.work_at.take(m), entries),
        ..query
    }
}

/// The notes agree among themselves and with the pending keys from the
/// `m`-th on.
spec fn notes_agree_from<V>(query: BatchQueryView<V>, m: int) -> bool {
    &&& forall|u: int, w: int|
        0 <= u < w < query.unknown.len() ==> query.unknown[u] != query.unknown[w]
    &&& forall|k: int, j: int|
        0 <= k < query.told.len() && m <= j < query.work_at.len() ==> (#[trigger] query.told[k]).0
            < #[trigger] query.work_at[j]
    &&& forall|u: int, j: int|
        0 <= u < query.unknown.len() && m <= j < query.work_at.len()
            ==> #[trigger] query.unknown[u] != #[trigger] query.work_at[j]
    &&& forall|k: int|
        0 <= k < query.told.len() ==> (#[trigger] query.told[k]).0 < query.sent && query.told[k].1
            < query.values.len()
    &&& forall|u: int| 0 <= u < query.unknown.len() ==> #[trigger] query.unknown[u] < query.sent
    &&& forall|u: int, k: int|
        0 <= u < query.unknown.len() && 0 <= k < query.told.len() && (#[trigger] query.told[k]).0
            == #[trigger] query.unknown[u] ==> query.values[query.told[k].1 as int].1 is None
}

/// Reading a successful reply for one pending key after another keeps the
/// notes in agreement.
proof fn lemma_notes_after_answers<V>(
    query: BatchQueryView<V>,
    entries: Seq<(Seq<char>, Option<V>)>,
    m: int,
)
    requires
        query.wf(),
        query.notes_agree(),
        0 <= m <= query.work.len(),
    ensures
        notes_agree_from(notes_after(query, entries, m), m),
    decreases m,
{
    let now = notes_after(query, entries, m);
    if m == 0 {
        assert(query.work.take(0) =~= Seq::empty());
        assert(now.told =~= query.told);
        assert(now.unknown =~= query.unknown);
    } else {
        lemma_notes_after_answers(query, entries, m - 1);
        let before = notes_after(query, entries, m - 1);
        let seen = query.work.take(m);
        let seen_at = query.work_at.take(m);
        assert(seen.drop_last() =~= query.work.take(m - 1));
        assert(seen_at.drop_last() =~= query.work_at.take(m - 1));
        assert(seen.last() == query.work[m - 1]);
        assert(seen_at.last() == query.work_at[m - 1]);
        let place = query.work_at[m - 1];
        lemma_lookup_is_last_entry(entries, query.work[m - 1]);
        let answer = last_entry_for(entries, query.work[m - 1]);
        let told_here = answers_in(seen, seen_at, entries, query.values.len());
        let told_then = answers_in(
            query.work.take(m - 1),
            query.work_at.take(m - 1),
            entries,
            query.values.len(),
        );
        let unknown_here = nulls_in(seen, seen_at, entries);
        let unknown_then = nulls_in(query.work.take(m - 1), query.work_at.take(m - 1), entries);
        assert(now.told =~= match answer {
            Some(e) => before.told.push((place, (query.values.len() + e) as nat)),
            None => before.told,
        }) by {
            assert(told_here == match answer {
                Some(e) => told_then.push((place, (query.values.len() + e) as nat)),
                None => told_then,
            });
        }
        assert(now.unknown =~= if lookup(entries, query.work[m - 1]) matches Some(None) {
            before.unknown.push(place)
        } else {
            before.unknown
        }) by {
            assert(unknown_here == if lookup(entries, query.work[m - 1]) matches Some(None) {
                unknown_then.push(place)
            } else {
                unknown_then
            });
        }
        assert forall|k: int, j: int|
            0 <= k < now.told.len() && m <= j < now.work_at.len() implies (#[trigger] now.told[k]).0
            < #[trigger] now.work_at[j] by {
            if k < before.told.len() {
                assert(before.told[k].0 < before.work_at[j]);
            }
        }
        assert forall|u: int, j: int|
            0 <= u < now.unknown.len() && m <= j < now.work_at.len()
            implies #[trigger] now.unknown[u] != #[trigger] now.work_at[j] by {
            if u < before.unknown.len() {
                assert(before.unknown[u] != before.work_at[j]);
            }
        }
        assert forall|k: int| 0 <= k < now.told.len() implies (#[trigger] now.told[k]).0 < now.sent
            && now.told[k].1 < now.values.len() by {
            if k < before.told.len() {
                assert(before.told[k].0 < before.sent);
            }
        }
        assert forall|u: int, w: int| 0 <= u < w < now.unknown.len() implies now.unknown[u]
            != now.unknown[w] by {
            if w < before.unknown.len() {
                assert(before.unknown[u] != before.unknown[w]);
            } else {
                assert(before.unknown[u] != before.work_at[m - 1]);
            }
        }
        assert forall|u: int| 0 <= u < now.unknown.len() implies #[trigger] now.unknown[u]
            < now.sent by {
            if u < before.unknown.len() {
                assert(before.unknown[u] < before.sent);
            }
        }
        assert forall|u: int, k: int|
            0 <= u < now.unknown.len() && 0 <= k < now.told.len() && (#[trigger] now.told[k]).0
                == #[trigger] now.unknown[u] implies now.values[now.told[k].1 as int].1 is None by {
            if k < before.told.len() {
                if u < before.unknown.len() {
                    assert(before.told[k].0 == before.unknown[u]);
                } else {
                    assert(before.told[k].0 < before.work_at[m - 1]);
                }
            } else {
                if u < before.unknown.len() {
                    assert(before.unknown[u] != before.work_at[m - 1]);
                } else {
                    assert(now.values[query.values.len() + answer->0] == entries[answer->0]);
                }
            }
        }
    }
}

/// A query that has just been created has notes in agreement: it has
/// none.
pub proof fn lemma_start_notes_agree<V>(keys: Seq<Seq<char>>, limit: nat)
    ensures
        BatchQueryView::<V>::start(keys, limit).notes_agree(),
{
}

/// A reply leaves the notes of a well-formed query in agreement.
pub proof fn lemma_receive_keeps_notes<V>(query: BatchQueryView<V>, reply: BatchReplyView<V>)
    requires
        query.wf(),
        query.notes_agree(),
    ensures
        query.receive(reply).notes_agree(),
{
    if !query.finished() {
        match reply {
            BatchReplyView::Success(entries) => {
                lemma_notes_after_answers(query, entries, query.work.len() as int);
                assert(query.work.take(query.work.len() as int) =~= query.work);
                assert(query.work_at.take(query.work.len() as int) =~= query.work_at);
                let read = notes_after(query, entries, query.work.len() as int);
                assert(query.receive(reply) == read.open_chunk());
                assert(notes_agree_from(read, query.work.len() as int));
            },
            _ => {},
        }
    }
}

/// Replies leave the notes of a well-formed query in agreement.
pub proof fn lemma_run_keeps_notes<V>(query: BatchQueryView<V>, replies: Seq<BatchReplyView<V>>)
    requires
        query.wf(),
        query.notes_agree(),
    ensures
        query.run(replies).wf(),
        query.run(replies).notes_agree(),
    decreases replies.len(),
{
    if replies.len() > 0 {
        lemma_run_keeps_notes(query, replies.drop_last());
        lemma_receive_wf(query.run(replies.drop_last()), replies.last());
        lemma_receive_keeps_notes(query.run(replies.drop_last()), replies.last());
    }
}

/// A chunk whose every request the tracker answers by rejecting one of
/// the keys asked for is sent exactly `MAX_ATTEMPTS_PER_CHUNK` times: up
/// to the last of these requests the query stays with the chunk, after it
/// the query has left the chunk, with the keys that were never rejected
/// left unanswered.
pub proof fn lemma_retry_bound<V>(query: BatchQueryView<V>, replies: Seq<BatchReplyView<V>>)
    requires
        query.wf(),
        query.attempts == 0,
        query.work.len() > MAX_ATTEMPTS_PER_CHUNK,
        replies.len() <= MAX_ATTEMPTS_PER_CHUNK,
        forall|k: int|
            0 <= k < replies.len() ==> rejects_pending_key(
                #[trigger] query.run(replies.take(k)),
                replies[k],
            ),
    ensures
        query.run(replies).keys == query.keys,
        query.run(replies).limit == query.limit,
        query.run(replies).values == query.values,
        query.run(replies).rejected.len() == query.rejected.len() + replies.len(),
        replies.len() < MAX_ATTEMPTS_PER_CHUNK ==> {
            &&& query.run(replies).sent == query.sent
            &&& query.run(replies).attempts == replies.len()
            &&& query.run(replies).work.len() == query.work.len() - replies.len()
        },
        replies.len() == MAX_ATTEMPTS_PER_CHUNK ==> {
            &&& query.run(replies).sent == query.next_end()
            &&& query.run(replies).attempts == 0
            &&& query.run(replies).work == query.keys.subrange(
                query.sent as int,
                query.next_end() as int,
            )
        },
    decreases replies.len(),
{
    if replies.len() > 0 {
        let earlier = replies.drop_last();
        let k = earlier.len() as int;
        assert forall|j: int| 0 <= j < earlier.len() implies rejects_pending_key(
            #[trigger] query.run(earlier.take(j)),
            earlier[j],
        ) by {
            assert(earlier.take(j) =~= replies.take(j));
            assert(rejects_pending_key(query.run(replies.take(j)), replies[j]));
        }
        lemma_retry_bound(query, earlier);
        assert(replies.take(k) =~= earlier);
        assert(rejects_pending_key(query.run(replies.take(k)), replies[k]));
    }
}

/// Every reply brings a query in progress closer to its end.
pub proof fn lemma_receive_uses_a_request<V>(query: BatchQueryView<V>, reply: BatchReplyView<V>)
    requires
        query.wf(),
        !query.finished(),
    ensures
        requests_left(query.receive(reply)) < requests_left(query),
{
    let n = query.keys.len();
    let rest = (n - query.sent) as nat;
    if rest > 0 {
        lemma_chunk_count_step(rest, query.limit);
    } else {
        assert(chunk_count(0, query.limit) == 0) by (nonlinear_arith)
            requires
                query.limit > 0,
                chunk_count(0, query.limit) == (0 + query.limit - 1) / (query.limit as int),
        ;
    }
    assert(MAX_ATTEMPTS_PER_CHUNK * (1 + chunk_count((n - query.next_end()) as nat, query.limit))
        == MAX_ATTEMPTS_PER_CHUNK + MAX_ATTEMPTS_PER_CHUNK * chunk_count(
        (n - query.next_end()) as nat,
        query.limit,
    )) by (nonlinear_arith);
}

/// No query goes on for ever: whatever the tracker replies, a query is
/// over once it has had as many replies as `requests_left` allows.
pub proof fn lemma_run_terminates<V>(query: BatchQueryView<V>, replies: Seq<BatchReplyView<V>>)
    requires
        query.wf(),
        replies.len() >= requests_left(query),
    ensures
        query.run(replies).finished(),
{
    lemma_requests_left_after(query, replies);
}

/// Each reply to a query in progress uses up one of the requests that it
/// had left.
proof fn lemma_requests_left_after<V>(query: BatchQueryView<V>, replies: Seq<BatchReplyView<V>>)
    requires
        query.wf(),
    ensures
        query.run(replies).wf(),
        requests_left(query.run(replies)) + replies.len() <= requests_left(query)
            || query.run(replies).finished(),
    decreases replies.len(),
{
    if replies.len() > 0 {
        let before = query.run(replies.drop_last());
        lemma_requests_left_after(query, replies.drop_last());
        lemma_receive_wf(before, replies.last());
        if !before.finished() {
            lemma_receive_uses_a_request(before, replies.last());
        }
    }
}

/// A query for `n` keys in chunks of `limit` never makes more than
/// `MAX_ATTEMPTS_PER_CHUNK` requests for each of its chunks.
pub proof fn lemma_total_requests_bound<V>(
    keys: Seq<Seq<char>>,
    limit: nat,
    replies: Seq<BatchReplyView<V>>,
)
    requires
        limit > 0 || keys.len() == 0,
        replies.len() >= MAX_ATTEMPTS_PER_CHUNK * chunk_count(keys.len(), limit),
    ensures
        BatchQueryView::start(keys, limit).run(replies).finished(),
{
    let first = BatchQueryView::<V>::start(keys, limit);
    lemma_start_wf::<V>(keys, limit);
    if !first.finished() {
        lemma_chunk_count_step(keys.len(), limit);
        assert(MAX_ATTEMPTS_PER_CHUNK * (1 + chunk_count((keys.len() - first.sent) as nat, limit))
            == MAX_ATTEMPTS_PER_CHUNK + MAX_ATTEMPTS_PER_CHUNK * chunk_count(
            (keys.len() - first.sent) as nat,
            limit,
        )) by (nonlinear_arith);
    }
    lemma_run_terminates(first, replies);
}

/// What a batched query has brought in.
#[derive(Clone, Debug)]
pub struct BatchOutcome<V> {
    /// The entries of every successful reply, in the order of arrival; of
    /// two entries for one key the later one counts.
    pub values: Vec<(String, Option<V>)>,
    /// The keys that the tracker rejected, in the order of rejection.
    pub rejected: Vec<String>,
    /// Which key was answered by which of the values: the place of the
    /// key among the keys of the query and the index of the entry among
    /// `values`, for every key that the reply to its own chunk had an
    /// entry for.
    pub told: Vec<(usize, usize)>,
    /// The places, among the keys of the query, of the keys that the
    /// tracker was found not to know, in the order in which that was
    /// found.
    pub unknown: Vec<usize>,
}

/// A batched query in progress.
pub struct BatchQuery<V> {
    keys: Vec<String>,
    limit: usize,
    sent: usize,
    work: Vec<String>,
    work_at: Vec<usize>,
    attempts: u8,
    values: Vec<(String, Option<V>)>,
    rejected: Vec<String>,
    told: Vec<(usize, usize)>,
    unknown: Vec<usize>,
}

impl<V> View for BatchQuery<V> {
    type V = BatchQueryView<V>;

    closed spec fn view(&self) -> BatchQueryView<V> {
        BatchQueryView {
            keys: texts(self.keys@),
            limit: self.limit as nat,
            sent: self.sent as nat,
            work: texts(self.work@),
            work_at: places(self.work_at@),
            attempts: self.attempts as nat,
            values: entry_views(self.values@),
            rejected: texts(self.rejected@),
            told: place_pairs(self.told@),
            unknown: places(self.unknown@),
        }
    }
}

/// Whether a query for `keys` has anything to ask the tracker. A query
/// for no keys is over before any request, so that not even the
/// tracker's limit is to be asked for.
pub fn needs_limit(keys: &Vec<String>) -> (needed: bool)
    ensures
        needed == (keys@.len() > 0),
        !needed ==> forall|limit: nat| BatchQueryView::<()>::start(texts(keys@), limit).finished(),
{
    keys.len() > 0
}

/// The index of the entry that counts for `key` among the entries from
/// `from` on: the last one.
pub fn find_entry_from<V>(entries: &Vec<(String, Option<V>)>, from: usize, key: &str) -> (found:
    Option<usize>)
    requires
        from <= entries.len(),
    ensures
        match found {
            Some(i) => from <= i < entries.len() && last_entry_for(
                entry_views(entries@).skip(from as int),
                key@,
            ) == Some(i - from),
            None => last_entry_for(entry_views(entries@).skip(from as int), key@) is None,
        },
{
    let wanted = key.to_owned();
    let ghost tail = entry_views(entries@).skip(from as int);
    let mut i: usize = entries.len();
    assert(tail.take(i - from) =~= tail);
    while i > from
        invariant
            from <= i <= entries.len(),
            wanted@ == key@,
            tail == entry_views(entries@).skip(from as int),
            last_entry_for(tail, key@) == last_entry_for(tail.take(i - from), key@),
        decreases i,
    {
        let ghost seen = tail.take(i - from);
        assert(seen.last() == (entries@[i - 1].0@, entries@[i - 1].1));
        assert(seen.drop_last() =~= tail.take(i - 1 - from));
        if entries[i - 1].0 == wanted {
            return Some(i - 1);
        }
        i -= 1;
    }
    assert(tail.take(0) =~= Seq::empty());
    None
}

impl<V> BatchQuery<V> {
    /// The query is in a state that `new` and `receive` can have left.
    pub open spec fn wf(&self) -> bool {
        self@.wf()
    }

    /// Takes up the chunk after the current one.
    fn open_chunk(&mut self)
        requires
            old(self).sent <= old(self).keys.len(),
            old(self).limit > 0 || old(self).keys.len() == 0,
        ensures
            final(self)@ == old(self)@.open_chunk(),
            final(self).wf(),
    {
        let n = self.keys.len();
        let end: usize = if self.limit >= n - self.sent {
            n
        } else {
            self.sent + self.limit
        };
        let mut work: Vec<String> = Vec::new();
        let mut work_at: Vec<usize> = Vec::new();
        let mut i: usize = self.sent;
        while i < end
            invariant
                self.sent <= i <= end <= self.keys.len(),
                texts(work@) == texts(self.keys@).subrange(self.sent as int, i as int),
                places(work_at@) == Seq::new(
                    (i - self.sent) as nat,
                    |j: int| (self.sent + j) as nat,
                ),
            decreases end - i,
        {
            let ghost before = texts(work@);
            let ghost before_at = places(work_at@);
            let key = self.keys[i].clone();
            work.push(key);
            work_at.push(i);
            assert(places(work_at@) =~= before_at.push(i as nat));
            assert(texts(work@) =~= before.push(texts(self.keys@)[i as int]));
            assert(texts(work@) =~= texts(self.keys@).subrange(self.sent as int, i + 1));
            assert(places(work_at@) =~= Seq::new(
                (i + 1 - self.sent) as nat,
                |j: int| (self.sent + j) as nat,
            ));
            i += 1;
        }
        self.work = work;
        self.work_at = work_at;
        self.sent = end;
        self.attempts = 0;
    }

    /// A query for `keys`, to be sent in chunks of at most `limit`.
    pub fn new(keys: Vec<String>, limit: usize) -> (query: Self)
        requires
            limit > 0 || keys.len() == 0,
        ensures
            query.wf(),
            query@ == BatchQueryView::<V>::start(texts(keys@), limit as nat),
    {
        let mut query = BatchQuery {
            keys,
            limit,
            sent: 0,
            work: Vec::new(),
            work_at: Vec::new(),
            attempts: 0,
            values: Vec::new(),
            rejected: Vec::new(),
            told: Vec::new(),
            unknown: Vec::new(),
        };
        assert(query@.work =~= Seq::empty());
        assert(query@.work_at =~= Seq::empty());
        assert(query@.values =~= Seq::empty());
        assert(query@.rejected =~= Seq::empty());
        assert(query@.told =~= Seq::empty());
        assert(query@.unknown =~= Seq::empty());
        query.open_chunk();
        query
    }

    /// Whether nothing is left to ask.
    pub fn is_finished(&self) -> (finished: bool)
        ensures
            finished == self@.finished(),
    {
        self.work.len() == 0
    }

    /// The keys of the request to make next; none once the query is over.
    pub fn pending(&self) -> (keys: &Vec<String>)
        ensures
            texts(keys@) == self@.work,
    {
        &self.work
    }

    /// How many requests for the current chunk were rejected so far.
    pub fn attempts(&self) -> (attempts: u8)
        ensures
            attempts == self@.attempts,
    {
        self.attempts
    }

    /// The keys that the tracker has rejected so far, in the order of
    /// rejection.
    pub fn rejected(&self) -> (keys: &Vec<String>)
        ensures
            texts(keys@) == self@.rejected,
    {
        &self.rejected
    }

    /// Notes what the entries that stand among the values from `offset`
    /// on tell of the pending keys.
    fn note_answers(&mut self, offset: usize)
        requires
            old(self).wf(),
            offset <= old(self).values.len(),
        ensures
            final(self)@ == (BatchQueryView {
                told: old(self)@.told + answers_in(
                    old(self)@.work,
                    old(self)@.work_at,
                    old(self)@.values.skip(offset as int),
                    offset as nat,
                ),
                unknown: old(self)@.unknown + nulls_in(
                    old(self)@.work,
                    old(self)@.work_at,
                    old(self)@.values.skip(offset as int),
                ),
                ..old(self)@
            }),
            final(self).wf(),
    {
        let ghost entries = self@.values.skip(offset as int);
        let ghost start = self@;
        let mut j: usize = 0;
        assert(start.work.take(0) =~= Seq::empty());
        assert(start.told + Seq::<(nat, nat)>::empty() =~= start.told);
        assert(start.unknown + Seq::<nat>::empty() =~= start.unknown);
        while j < self.work.len()
            invariant
                j <= self.work.len(),
                offset <= self.values.len(),
                start.wf(),
                entries == start.values.skip(offset as int),
                self@ == (BatchQueryView {
                    told: start.told + answers_in(
                        start.work.take(j as int),
                        start.work_at.take(j as int),
                        entries,
                        offset as nat,
                    ),
                    unknown: start.unknown + nulls_in(
                        start.work.take(j as int),
                        start.work_at.take(j as int),
                        entries,
                    ),
                    ..start
                }),
            decreases self.work.len() - j,
        {
            let ghost seen = start.work.take(j + 1);
            let ghost seen_at = start.work_at.take(j + 1);
            assert(seen.drop_last() =~= start.work.take(j as int));
            assert(seen_at.drop_last() =~= start.work_at.take(j as int));
            assert(seen.last() == self.work@[j as int]@);
            assert(seen_at.last() == self.work_at@[j as int] as nat);
            let ghost told_before = self@.told;
            let ghost unknown_before = self@.unknown;
            proof {
                lemma_lookup_is_last_entry(entries, seen.last());
            }
            match find_entry_from(&self.values, offset, self.work[j].as_str()) {
                Some(e) => {
                    assert(entries[e - offset] == (self.values@[e as int].0@, self.values@[e as int].1));
                    let place = self.work_at[j];
                    self.told.push((place, e));
                    assert(self@.told =~= told_before.push((place as nat, e as nat)));
                    if self.values[e].1.is_none() {
                        self.unknown.push(place);
                        assert(self@.unknown =~= unknown_before.push(place as nat));
                    }
                },
                None => {},
            }
            assert(self@.told =~= start.told + answers_in(seen, seen_at, entries, offset as nat));
            assert(self@.unknown =~= start.unknown + nulls_in(seen, seen_at, entries));
            j += 1;
        }
        assert(start.work.take(j as int) =~= start.work);
        assert(start.work_at.take(j as int) =~= start.work_at);
    }

    /// The index of the first pending key that reads `key`.
    fn position_in_work(&self, key: &str) -> (at: Option<usize>)
        ensures
            match at {
                Some(i) => position_of(self@.work, key@) == Some(i as int) && i < self.work.len(),
                None => position_of(self@.work, key@) is None,
            },
    {
        let wanted = key.to_owned();
        let mut i: usize = 0;
        while i < self.work.len()
            invariant
                i <= self.work.len(),
                wanted@ == key@,
                forall|j: int| 0 <= j < i ==> texts(self.work@)[j] != key@,
            decreases self.work.len() - i,
        {
            if self.work[i] == wanted {
                proof {
                    lemma_position_found(self@.work, key@, i as int);
                }
                return Some(i);
            }
            i += 1;
        }
        None
    }

    /// Takes the reply to the pending request.
    pub fn receive(&mut self, reply: BatchReply<V>)
        requires
            old(self).wf(),
        ensures
            final(self).wf(),
            final(self)@ == old(self)@.receive(reply@),
    {
        if self.work.len() == 0 {
            return ;
        }
        match reply {
            BatchReply::Success(entries) => {
                let mut entries = entries;
                let ghost arrived = entry_views(entries@);
                let offset = self.values.len();
                self.values.append(&mut entries);
                assert(entry_views(self.values@) =~= old(self)@.values + arrived);
                assert(entry_views(self.values@).skip(offset as int) =~= arrived);
                self.note_answers(offset);
                self.open_chunk();
            },
            BatchReply::Error(text) => {
                let at = match extract_invalid_hash(text.as_str()) {
                    Some(bad) => self.position_in_work(bad),
                    None => None,
                };
                match at {
                    Some(i) => {
                        let key = self.work.remove(i);
                        let place = self.work_at.remove(i);
                        self.rejected.push(key);
                        self.unknown.push(place);
                        self.attempts = self.attempts + 1;
                        assert(texts(self.work@) =~= old(self)@.work.remove(i as int));
                        assert(places(self.work_at@) =~= old(self)@.work_at.remove(i as int));
                        assert(texts(self.rejected@) =~= old(self)@.rejected.push(
                            old(self)@.work[i as int],
                        ));
                        assert(places(self.unknown@) =~= old(self)@.unknown.push(
                            old(self)@.work_at[i as int],
                        ));
                        if self.work.len() == 0 || self.attempts >= MAX_ATTEMPTS_PER_CHUNK {
                            self.open_chunk();
                        }
                    },
                    None => {
                        self.open_chunk();
                    },
                }
            },
            BatchReply::Failed => {
                self.open_chunk();
            },
        }
    }

    /// Ends the query and hands out what it has brought in.
    pub fn into_outcome(self) -> (outcome: BatchOutcome<V>)
        ensures
            entry_views(outcome.values@) == self@.values,
            texts(outcome.rejected@) == self@.rejected,
            place_pairs(outcome.told@) == self@.told,
            places(outcome.unknown@) == self@.unknown,
    {
        BatchOutcome {
            values: self.values,
            rejected: self.rejected,
            told: self.told,
            unknown: self.unknown,
        }
    }
}

} // verus!
