//! What to do about the torrents whose hash the tracker does not know:
//! the verdict on each, and the calls that carry the verdicts out.
//!
//! `Reconciler` holds the state of one pass over the working set. It
//! performs nothing itself: it names the next call to make against the
//! tracker or the client and takes the call's result, so that whoever
//! drives it makes the calls.

use crate::batch::{entry_views, lookup};
use crate::numbers::{parse_u64, parsed_u64};
use crate::rutracker_api::find_entry;
use crate::text::{eq_ignore_ascii_case, same_ignoring_ascii_case};
use crate::torrent::{torrent_views, Torrent, TorrentView};
use vstd::prelude::*;

verus! {

/// What the tracker's answer means for one torrent.
#[derive(Clone, Debug, PartialEq, Eq)]
pub enum Verdict {
    /// The tracker still publishes the torrent under the hash known here.
    Unchanged,
    /// The tracker publishes the torrent under another hash.
    UpdatedTo(String),
    /// The tracker has withdrawn the torrent.
    Retracted,
}

/// A verdict as plain values.
pub enum VerdictView {
    Unchanged,
    UpdatedTo(Seq<char>),
    Retracted,
}

impl View for Verdict {
    type V = VerdictView;

    open spec fn view(&self) -> VerdictView {
        match self {
            Verdict::Unchanged => VerdictView::Unchanged,
            Verdict::UpdatedTo(hash) => VerdictView::UpdatedTo(hash@),
            Verdict::Retracted => VerdictView::Retracted,
        }
    }
}

/// The verdict on a torrent, given the hashes that the tracker told for
/// topic ids. There is none for a torrent without a topic id, nor for one
/// whose id the tracker did not answer for. A hash that differs from the
/// torrent's only in the case of its letters is the same hash.
pub open spec fn verdict_of(t: TorrentView, resolved: Seq<(Seq<char>, Option<String>)>) -> Option<
    VerdictView,
> {
    if t.torrent_id.len() == 0 {
        None
    } else {
        match lookup(resolved, t.torrent_id) {
            None => None,
            Some(None) => Some(VerdictView::Retracted),
            Some(Some(hash)) => if eq_ignore_ascii_case(hash@, t.torrent_hash) {
                Some(VerdictView::Unchanged)
            } else {
                Some(VerdictView::UpdatedTo(hash@))
            },
        }
    }
}

/// The view of an optional verdict.
pub open spec fn verdict_view(verdict: Option<Verdict>) -> Option<VerdictView> {
    match verdict {
        Some(v) => Some(v@),
        None => None,
    }
}

/// Judges one torrent by the hashes that the tracker told for topic ids.
pub fn classify(torrent: &Torrent, resolved: &Vec<(String, Option<String>)>) -> (verdict: Option<
    Verdict,
>)
    ensures
        verdict_view(verdict) == verdict_of(torrent@, entry_views(resolved@)),
{
    if torrent.torrent_id.as_str().is_empty() {
        return None;
    }
    match find_entry(resolved, torrent.torrent_id.as_str()) {
        None => None,
        Some(None) => Some(Verdict::Retracted),
        Some(Some(hash)) => {
            if same_ignoring_ascii_case(hash.as_str(), torrent.torrent_hash.as_str()) {
                Some(Verdict::Unchanged)
            } else {
                Some(Verdict::UpdatedTo(hash.clone()))
            }
        },
    }
}

/// How many torrents a pass has updated and deleted. In a dry run these
/// are the torrents that it would have updated and deleted.
#[derive(Clone, Copy, Debug, PartialEq, Eq)]
pub struct RunSummary {
    pub updated: usize,
    pub deleted: usize,
}

/// A call for the driver to make.
#[derive(Clone, Debug, PartialEq, Eq)]
pub enum ClientCall {
    /// Fetch the current torrent file of the topic from the tracker.
    Download { topic_id: u64 },
    /// Add the torrent file to the client, with the placement of the
    /// torrent that it replaces.
    AddTorrent { file: String, save_path: String, category: String, tags: String },
    /// Remove the torrent file that a download has left.
    RemoveFile { file: String },
    /// Remove the torrent with this hash from the client, with its data or
    /// without.
    DeleteTorrent { hash: String, delete_data: bool },
}

/// A call as plain values.
pub enum ClientCallView {
    Download { topic_id: u64 },
    AddTorrent { file: Seq<char>, save_path: Seq<char>, category: Seq<char>, tags: Seq<char> },
    RemoveFile { file: Seq<char> },
    DeleteTorrent { hash: Seq<char>, delete_data: bool },
}

impl View for ClientCall {
    type V = ClientCallView;

    open spec fn view(&self) -> ClientCallView {
        match self {
            ClientCall::Download { topic_id } => ClientCallView::Download { topic_id: *topic_id },
            ClientCall::AddTorrent { file, save_path, category, tags } => ClientCallView::AddTorrent {
                file: file@,
                save_path: save_path@,
                category: category@,
                tags: tags@,
            },
            ClientCall::RemoveFile { file } => ClientCallView::RemoveFile { file: file@ },
            ClientCall::DeleteTorrent { hash, delete_data } => ClientCallView::DeleteTorrent {
                hash: hash@,
                delete_data: *delete_data,
            },
        }
    }
}

/// The view of an optional call.
pub open spec fn call_view(call: Option<ClientCall>) -> Option<ClientCallView> {
    match call {
        Some(c) => Some(c@),
        None => None,
    }
}

/// How a call ended.
#[derive(Clone, Debug, PartialEq, Eq)]
pub enum CallResult {
    /// The call succeeded.
    Done,
    /// The download succeeded and left the torrent file under this name.
    Downloaded(String),
    /// The call failed.
    Failed,
}

/// A result as plain values.
pub enum CallResultView {
    Done,
    Downloaded(Seq<char>),
    Failed,
}

impl View for CallResult {
    type V = CallResultView;

    open spec fn view(&self) -> CallResultView {
        match self {
            CallResult::Done => CallResultView::Done,
            CallResult::Downloaded(file) => CallResultView::Downloaded(file@),
            CallResult::Failed => CallResultView::Failed,
        }
    }
}

/// What a pass is waiting for.
#[derive(Clone, Debug, PartialEq, Eq)]
pub enum Stage {
    /// The torrent file of the torrent in hand is being fetched.
    Downloading { topic_id: u64 },
    /// The fetched file is being added to the client.
    Adding { file: String },
    /// The fetched file is being removed, after the client took it
    /// (`added`) or refused it.
    Discarding { file: String, added: bool },
    /// The torrent in hand is being removed from the client, its data
    /// kept for the torrent that replaces it.
    RemovingOld,
    /// The torrent in hand is being deleted from the client with its data.
    Deleting,
    /// Nothing: the pass is over.
    Over,
}

/// A stage as plain values.
pub enum StageView {
    Downloading { topic_id: u64 },
    Adding { file: Seq<char> },
    Discarding { file: Seq<char>, added: bool },
    RemovingOld,
    Deleting,
    Over,
}

impl View for Stage {
    type V = StageView;

    open spec fn view(&self) -> StageView {
        match self {
            Stage::Downloading { topic_id } => StageView::Downloading { topic_id: *topic_id },
            Stage::Adding { file } => StageView::Adding { file: file@ },
            Stage::Discarding { file, added } => StageView::Discarding { file: file@, added: *added },
            Stage::RemovingOld => StageView::RemovingOld,
            Stage::Deleting => StageView::Deleting,
            Stage::Over => StageView::Over,
        }
    }
}

/// The state of a pass, as plain values.
pub struct ReconcilerView {
    /// The working set.
    pub torrents: Seq<TorrentView>,
    /// The hashes that the tracker told for topic ids.
    pub resolved: Seq<(Seq<char>, Option<String>)>,
    /// Whether the pass only counts what it would do.
    pub dry_run: bool,
    /// The index of the torrent in hand; the torrents before it are dealt
    /// with.
    pub position: nat,
    /// What the pass is waiting for.
    pub stage: StageView,
    /// The torrents updated so far.
    pub updated: nat,
    /// The torrents deleted so far.
    pub deleted: nat,
    /// The torrents whose update or deletion was given up.
    pub failed: nat,
}

impl ReconcilerView {
    /// The pass is over.
    pub open spec fn over(self) -> bool {
        self.stage is Over
    }

    /// The torrent in hand.
    pub open spec fn current(self) -> TorrentView {
        self.torrents[self.position as int]
    }

    /// Goes on from the torrent in hand to the first torrent that needs a
    /// call, dealing on the way with those that need none.
    ///
    /// A torrent without a verdict, or whose hash is unchanged, is passed
    /// over. In a dry run an updated torrent counts as updated and a
    /// retracted one as deleted, without any call. Otherwise a retracted
    /// torrent is to be deleted, and an updated one is to be fetched
    /// anew, unless its topic id is no number: then its update is given
    /// up.
    pub open spec fn settle(self) -> Self
        decreases self.torrents.len() - self.position,
    {
        if self.position >= self.torrents.len() {
            ReconcilerView { stage: StageView::Over, ..self }
        } else {
            let next = ReconcilerView { position: self.position + 1, ..self };
            match verdict_of(self.current(), self.resolved) {
                None => next.settle(),
                Some(VerdictView::Unchanged) => next.settle(),
                Some(VerdictView::UpdatedTo(_)) => if self.dry_run {
                    ReconcilerView { updated: self.updated + 1, ..next }.settle()
                } else {
                    match parsed_u64(self.current().torrent_id) {
                        Some(topic_id) => ReconcilerView {
                            stage: StageView::Downloading { topic_id },
                            ..self
                        },
                        None => ReconcilerView { failed: self.failed + 1, ..next }.settle(),
                    }
                },
                Some(VerdictView::Retracted) => if self.dry_run {
                    ReconcilerView { deleted: self.deleted + 1, ..next }.settle()
                } else {
                    ReconcilerView { stage: StageView::Deleting, ..self }
                },
            }
        }
    }

    /// The pass before its first call.
    pub open spec fn start(
        torrents: Seq<TorrentView>,
        resolved: Seq<(Seq<char>, Option<String>)>,
        dry_run: bool,
    ) -> Self {
        ReconcilerView {
            torrents,
            resolved,
            dry_run,
            position: 0,
            stage: StageView::Over,
            updated: 0,
            deleted: 0,
            failed: 0,
        }.settle()
    }

    /// The call to make next; none once the pass is over.
    pub open spec fn call(self) -> Option<ClientCallView> {
        match self.stage {
            StageView::Downloading { topic_id } => Some(ClientCallView::Download { topic_id }),
            StageView::Adding { file } => Some(
                ClientCallView::AddTorrent {
                    file,
                    save_path: self.current().save_path,
                    category: self.current().category,
                    tags: self.current().tags,
                },
            ),
            StageView::Discarding { file, added } => Some(ClientCallView::RemoveFile { file }),
            StageView::RemovingOld => Some(
                ClientCallView::DeleteTorrent {
                    hash: self.current().torrent_hash,
                    delete_data: false,
                },
            ),
            StageView::Deleting => Some(
                ClientCallView::DeleteTorrent {
                    hash: self.current().torrent_hash,
                    delete_data: true,
                },
            ),
            StageView::Over => None,
        }
    }

    /// The pass with the torrent in hand given up.
    pub open spec fn give_up(self) -> Self {
        ReconcilerView { position: self.position + 1, failed: self.failed + 1, ..self }.settle()
    }

    /// The pass after `result` of its pending call.
    ///
    /// A download that succeeds is followed by adding the file to the
    /// client, and that, however it ends, by removing the file. Only
    /// where the client took the file is the old torrent removed then, its
    /// data kept; once that has succeeded the torrent counts as updated.
    /// A deletion that succeeds counts the torrent as deleted. Any failure
    /// but that of removing the file gives the torrent in hand up.
    pub open spec fn receive(self, result: CallResultView) -> Self {
        match self.stage {
            StageView::Downloading { topic_id } => match result {
                CallResultView::Downloaded(file) => ReconcilerView {
                    stage: StageView::Adding { file },
                    ..self
                },
                _ => self.give_up(),
            },
            StageView::Adding { file } => ReconcilerView {
                stage: StageView::Discarding { file, added: !(result is Failed) },
                ..self
            },
            StageView::Discarding { file, added } => if added {
                ReconcilerView { stage: StageView::RemovingOld, ..self }
            } else {
                self.give_up()
            },
            StageView::RemovingOld => if result is Failed {
                self.give_up()
            } else {
                ReconcilerView {
                    position: self.position + 1,
                    updated: self.updated + 1,
                    ..self
                }.settle()
            },
            StageView::Deleting => if result is Failed {
                self.give_up()
            } else {
                ReconcilerView {
                    position: self.position + 1,
                    deleted: self.deleted + 1,
                    ..self
                }.settle()
            },
            StageView::Over => self,
        }
    }

    /// The pass after the results of its calls, one after another.
    pub open spec fn run(self, results: Seq<CallResultView>) -> Self
        decreases results.len(),
    {
        if results.len() == 0 {
            self
        } else {
            self.run(results.drop_last()).receive(results.last())
        }
    }

    /// What holds of every pass in progress.
    pub open spec fn wf(self) -> bool {
        &&& self.position <= self.torrents.len()
        &&& self.over() <==> self.position == self.torrents.len()
        &&& self.updated + self.deleted + self.failed <= self.position
    }
}

/// Going on to the next torrent that needs a call keeps a pass well
/// formed and leaves it waiting for a download or a deletion, or over.
pub proof fn lemma_settle(v: ReconcilerView)
    requires
        v.position <= v.torrents.len(),
        v.updated + v.deleted + v.failed <= v.position,
    ensures
        v.settle().wf(),
        v.settle().torrents == v.torrents,
        v.settle().resolved == v.resolved,
        v.settle().dry_run == v.dry_run,
        v.settle().position >= v.position,
        v.settle().stage is Downloading || v.settle().stage is Deleting || v.settle().stage is Over,
        v.dry_run ==> v.settle().over(),
    decreases v.torrents.len() - v.position,
{
    if v.position < v.torrents.len() {
        let next = ReconcilerView { position: v.position + 1, ..v };
        lemma_settle(next);
        lemma_settle(ReconcilerView { updated: v.updated + 1, ..next });
        lemma_settle(ReconcilerView { deleted: v.deleted + 1, ..next });
        lemma_settle(ReconcilerView { failed: v.failed + 1, ..next });
    }
}

/// A result leaves a well-formed pass well formed.
pub proof fn lemma_receive_wf(v: ReconcilerView, result: CallResultView)
    requires
        v.wf(),
    ensures
        v.receive(result).wf(),
        v.receive(result).torrents == v.torrents,
        v.receive(result).resolved == v.resolved,
        v.receive(result).dry_run == v.dry_run,
{
    if !v.over() {
        lemma_settle(ReconcilerView { position: v.position + 1, failed: v.failed + 1, ..v });
        lemma_settle(ReconcilerView { position: v.position + 1, updated: v.updated + 1, ..v });
        lemma_settle(ReconcilerView { position: v.position + 1, deleted: v.deleted + 1, ..v });
    }
}

/// The tracker publishes the torrent under another hash.
pub open spec fn is_update(t: TorrentView, resolved: Seq<(Seq<char>, Option<String>)>) -> bool {
    verdict_of(t, resolved) matches Some(VerdictView::UpdatedTo(_))
}

/// The tracker has withdrawn the torrent.
pub open spec fn is_retraction(t: TorrentView, resolved: Seq<(Seq<char>, Option<String>)>) -> bool {
    verdict_of(t, resolved) == Some(VerdictView::Retracted)
}

/// How many of `torrents` the tracker publishes under another hash.
pub open spec fn updates_in(torrents: Seq<TorrentView>, resolved: Seq<(Seq<char>, Option<String>)>) -> nat
    decreases torrents.len(),
{
    if torrents.len() == 0 {
        0
    } else {
        updates_in(torrents.drop_last(), resolved) + if is_update(torrents.last(), resolved) {
            1nat
        } else {
            0
        }
    }
}

/// How many of `torrents` the tracker has withdrawn.
pub open spec fn retractions_in(
    torrents: Seq<TorrentView>,
    resolved: Seq<(Seq<char>, Option<String>)>,
) -> nat
    decreases torrents.len(),
{
    if torrents.len() == 0 {
        0
    } else {
        retractions_in(torrents.drop_last(), resolved) + if is_retraction(
            torrents.last(),
            resolved,
        ) {
            1nat
        } else {
            0
        }
    }
}

/// None of `torrents` has drifted: each has either no verdict or the
/// verdict that its hash is unchanged.
pub open spec fn no_drift(torrents: Seq<TorrentView>, resolved: Seq<(Seq<char>, Option<String>)>) -> bool {
    forall|i: int|
        0 <= i < torrents.len() ==> !is_update(#[trigger] torrents[i], resolved) && !is_retraction(
            torrents[i],
            resolved,
        )
}

/// Every torrent of `torrents` that is to be updated has a number for its
/// topic id.
pub open spec fn updates_have_numeric_ids(
    torrents: Seq<TorrentView>,
    resolved: Seq<(Seq<char>, Option<String>)>,
) -> bool {
    forall|i: int|
        0 <= i < torrents.len() && is_update(#[trigger] torrents[i], resolved) ==> parsed_u64(
            torrents[i].torrent_id,
        ) is Some
}

/// `result` reports that the call that `pass` is waiting for succeeded.
pub open spec fn reports_success(pass: ReconcilerView, result: CallResultView) -> bool {
    match pass.stage {
        StageView::Downloading { topic_id } => result is Downloaded,
        StageView::Adding { file } => !(result is Failed),
        StageView::Discarding { file, added } => true,
        StageView::RemovingOld => !(result is Failed),
        StageView::Deleting => !(result is Failed),
        StageView::Over => true,
    }
}

/// Every call that `pass` makes while it takes `results` succeeds.
pub open spec fn all_calls_succeed(pass: ReconcilerView, results: Seq<CallResultView>) -> bool {
    forall|k: int|
        0 <= k < results.len() ==> reports_success(#[trigger] pass.run(results.take(k)), results[k])
}

/// The counters of `pass` are those of the torrents before the one in
/// hand, none of them given up, and the stage fits the verdict on the
/// torrent in hand.
spec fn counts_match(pass: ReconcilerView) -> bool {
    let done = pass.torrents.take(pass.position as int);
    &&& pass.wf()
    &&& pass.failed == 0
    &&& pass.updated == updates_in(done, pass.resolved)
    &&& pass.deleted == retractions_in(done, pass.resolved)
    &&& match pass.stage {
        StageView::Downloading { topic_id } => is_update(pass.current(), pass.resolved),
        StageView::Adding { file } => is_update(pass.current(), pass.resolved),
        StageView::Discarding { file, added } => added && is_update(pass.current(), pass.resolved),
        StageView::RemovingOld => is_update(pass.current(), pass.resolved),
        StageView::Deleting => is_retraction(pass.current(), pass.resolved),
        StageView::Over => true,
    }
}

/// Going on from a torrent keeps the counters in step with the verdicts on
/// the torrents passed.
proof fn lemma_settle_counts(v: ReconcilerView)
    requires
        v.position <= v.torrents.len(),
        v.failed == 0,
        v.updated == updates_in(v.torrents.take(v.position as int), v.resolved),
        v.deleted == retractions_in(v.torrents.take(v.position as int), v.resolved),
        v.dry_run || updates_have_numeric_ids(v.torrents, v.resolved),
    ensures
        counts_match(v.settle()),
    decreases v.torrents.len() - v.position,
{
    lemma_counts_bounded(v.torrents.take(v.position as int), v.resolved);
    lemma_settle(v);
    if v.position < v.torrents.len() {
        let done = v.torrents.take((v.position + 1) as int);
        assert(done.drop_last() =~= v.torrents.take(v.position as int));
        assert(done.last() == v.current());
        let next = ReconcilerView { position: v.position + 1, ..v };
        if is_update(v.current(), v.resolved) {
            if v.dry_run {
                lemma_settle_counts(ReconcilerView { updated: v.updated + 1, ..next });
            }
        } else if is_retraction(v.current(), v.resolved) {
            if v.dry_run {
                lemma_settle_counts(ReconcilerView { deleted: v.deleted + 1, ..next });
            }
        } else {
            lemma_settle_counts(next);
        }
    }
}

/// No more torrents are to be updated or withdrawn than there are.
proof fn lemma_counts_bounded(torrents: Seq<TorrentView>, resolved: Seq<(Seq<char>, Option<String>)>)
    ensures
        updates_in(torrents, resolved) + retractions_in(torrents, resolved) <= torrents.len(),
    decreases torrents.len(),
{
    if torrents.len() > 0 {
        lemma_counts_bounded(torrents.drop_last(), resolved);
    }
}

/// Where nothing has drifted, nothing is to be updated or withdrawn.
proof fn lemma_no_drift_counts(torrents: Seq<TorrentView>, resolved: Seq<(Seq<char>, Option<String>)>)
    requires
        no_drift(torrents, resolved),
    ensures
        updates_in(torrents, resolved) == 0,
        retractions_in(torrents, resolved) == 0,
    decreases torrents.len(),
{
    if torrents.len() > 0 {
        let earlier = torrents.drop_last();
        assert forall|i: int| 0 <= i < earlier.len() implies !is_update(
            #[trigger] earlier[i],
            resolved,
        ) && !is_retraction(earlier[i], resolved) by {
            assert(earlier[i] == torrents[i]);
        }
        lemma_no_drift_counts(earlier, resolved);
        assert(torrents.last() == torrents[torrents.len() - 1]);
    }
}

/// A pass that is over stays over: further results change nothing, and no
/// call follows.
pub proof fn lemma_over_is_final(pass: ReconcilerView, results: Seq<CallResultView>)
    requires
        pass.over(),
    ensures
        pass.run(results) == pass,
        pass.run(results).call() is None,
    decreases results.len(),
{
    if results.len() > 0 {
        lemma_over_is_final(pass, results.drop_last());
    }
}

/// A dry run makes no call: it is over as soon as it is set up, with
/// every torrent that is to be updated counted as updated and every
/// withdrawn torrent counted as deleted.
pub proof fn lemma_dry_run_makes_no_call(
    torrents: Seq<TorrentView>,
    resolved: Seq<(Seq<char>, Option<String>)>,
)
    ensures
        ReconcilerView::start(torrents, resolved, true).over(),
        ReconcilerView::start(torrents, resolved, true).call() is None,
        ReconcilerView::start(torrents, resolved, true).updated == updates_in(torrents, resolved),
        ReconcilerView::start(torrents, resolved, true).deleted == retractions_in(
            torrents,
            resolved,
        ),
        ReconcilerView::start(torrents, resolved, true).failed == 0,
{
    let first = ReconcilerView {
        torrents,
        resolved,
        dry_run: true,
        position: 0,
        stage: StageView::Over,
        updated: 0,
        deleted: 0,
        failed: 0,
    };
    assert(torrents.take(0) =~= Seq::empty());
    lemma_settle(first);
    lemma_settle_counts(first);
    assert(torrents.take(torrents.len() as int) =~= torrents);
}

/// A run in which every call succeeds, and every torrent to be updated
/// has a number for its topic id, ends with the counts that a dry run
/// over the same torrents reports. Both hold the same torrents and the
/// same answers of the tracker to the end, and so come to the same
/// verdicts.
pub proof fn lemma_dry_run_counts_as_real_run(
    torrents: Seq<TorrentView>,
    resolved: Seq<(Seq<char>, Option<String>)>,
    results: Seq<CallResultView>,
)
    requires
        updates_have_numeric_ids(torrents, resolved),
        all_calls_succeed(ReconcilerView::start(torrents, resolved, false), results),
        ReconcilerView::start(torrents, resolved, false).run(results).over(),
    ensures
        ReconcilerView::start(torrents, resolved, false).run(results).updated
            == ReconcilerView::start(torrents, resolved, true).updated,
        ReconcilerView::start(torrents, resolved, false).run(results).deleted
            == ReconcilerView::start(torrents, resolved, true).deleted,
        ReconcilerView::start(torrents, resolved, false).run(results).failed == 0,
        ReconcilerView::start(torrents, resolved, false).run(results).torrents
            == ReconcilerView::start(torrents, resolved, true).torrents,
        ReconcilerView::start(torrents, resolved, false).run(results).resolved
            == ReconcilerView::start(torrents, resolved, true).resolved,
{
    lemma_dry_run_makes_no_call(torrents, resolved);
    lemma_real_run_counts(torrents, resolved, results);
    lemma_settle(
        ReconcilerView {
            torrents,
            resolved,
            dry_run: true,
            position: 0,
            stage: StageView::Over,
            updated: 0,
            deleted: 0,
            failed: 0,
        },
    );
    assert(torrents.take(torrents.len() as int) =~= torrents);
}

/// While every call succeeds, the counters of a run are in step with the
/// verdicts on the torrents that it has dealt with.
proof fn lemma_real_run_counts(
    torrents: Seq<TorrentView>,
    resolved: Seq<(Seq<char>, Option<String>)>,
    results: Seq<CallResultView>,
)
    requires
        updates_have_numeric_ids(torrents, resolved),
        all_calls_succeed(ReconcilerView::start(torrents, resolved, false), results),
    ensures
        counts_match(ReconcilerView::start(torrents, resolved, false).run(results)),
        ReconcilerView::start(torrents, resolved, false).run(results).torrents == torrents,
        ReconcilerView::start(torrents, resolved, false).run(results).resolved == resolved,
        !ReconcilerView::start(torrents, resolved, false).run(results).dry_run,
    decreases results.len(),
{
    let first = ReconcilerView::start(torrents, resolved, false);
    if results.len() == 0 {
        let blank = ReconcilerView {
            torrents,
            resolved,
            dry_run: false,
            position: 0,
            stage: StageView::Over,
            updated: 0,
            deleted: 0,
            failed: 0,
        };
        assert(torrents.take(0) =~= Seq::empty());
        lemma_settle(blank);
        lemma_settle_counts(blank);
    } else {
        let earlier = results.drop_last();
        assert(all_calls_succeed(first, earlier)) by {
            assert forall|k: int| 0 <= k < earlier.len() implies reports_success(
                #[trigger] first.run(earlier.take(k)),
                earlier[k],
            ) by {
                assert(earlier.take(k) =~= results.take(k));
                assert(reports_success(first.run(results.take(k)), results[k]));
            }
        }
        lemma_real_run_counts(torrents, resolved, earlier);
        let before = first.run(earlier);
        assert(results.take(earlier.len() as int) =~= earlier);
        assert(reports_success(first.run(results.take(earlier.len() as int)), results.last()));
        lemma_receive_wf(before, results.last());
        if !before.over() {
            let done = torrents.take((before.position + 1) as int);
            assert(done.drop_last() =~= torrents.take(before.position as int));
            assert(done.last() == before.current());
            lemma_counts_bounded(done, resolved);
            if before.stage is RemovingOld {
                lemma_settle_counts(
                    ReconcilerView {
                        position: before.position + 1,
                        updated: before.updated + 1,
                        ..before
                    },
                );
            } else if before.stage is Deleting {
                lemma_settle_counts(
                    ReconcilerView {
                        position: before.position + 1,
                        deleted: before.deleted + 1,
                        ..before
                    },
                );
            }
        }
    }
}

/// Where nothing has drifted, a pass makes no call and counts nothing.
pub proof fn lemma_no_drift_no_action(
    torrents: Seq<TorrentView>,
    resolved: Seq<(Seq<char>, Option<String>)>,
    dry_run: bool,
)
    requires
        no_drift(torrents, resolved),
    ensures
        ReconcilerView::start(torrents, resolved, dry_run).over(),
        ReconcilerView::start(torrents, resolved, dry_run).call() is None,
        ReconcilerView::start(torrents, resolved, dry_run).updated == 0,
        ReconcilerView::start(torrents, resolved, dry_run).deleted == 0,
        ReconcilerView::start(torrents, resolved, dry_run).failed == 0,
{
    let blank = ReconcilerView {
        torrents,
        resolved,
        dry_run,
        position: 0,
        stage: StageView::Over,
        updated: 0,
        deleted: 0,
        failed: 0,
    };
    assert(updates_have_numeric_ids(torrents, resolved));
    assert(torrents.take(0) =~= Seq::empty());
    lemma_settle(blank);
    lemma_settle_counts(blank);
    let end = blank.settle();
    lemma_no_drift_counts(torrents, resolved);
    if !end.over() {
        assert(!is_update(torrents[end.position as int], resolved));
        assert(!is_retraction(torrents[end.position as int], resolved));
    }
    assert(torrents.take(torrents.len() as int) =~= torrents);
}

/// The old torrent is removed only after the client took the new one: a
/// call that removes a torrent and keeps its data comes second after a
/// call that added a torrent file and succeeded, with only the removal of
/// that file between them, and concerns the torrent then in hand.
pub proof fn lemma_remove_follows_add(first: ReconcilerView, results: Seq<CallResultView>)
    requires
        first.stage is Downloading || first.stage is Deleting || first.stage is Over,
        first.run(results).call() matches Some(ClientCallView::DeleteTorrent { delete_data, .. })
            && !delete_data,
    ensures
        results.len() >= 2,
        first.run(results.take(results.len() - 2)).call() matches Some(
            ClientCallView::AddTorrent { .. },
        ),
        !(results[results.len() - 2] is Failed),
        first.run(results.take(results.len() - 1)).call() matches Some(
            ClientCallView::RemoveFile { .. },
        ),
        first.run(results.take(results.len() - 2)).position == first.run(results).position,
{
    let n = results.len() as int;
    lemma_run_stage(first, results);
    assert(n >= 1);
    let one_back = results.drop_last();
    assert(results.take(n - 1) =~= one_back);
    let before = first.run(one_back);
    lemma_run_stage(first, one_back);
    lemma_settles_never_remove(before, results.last());
    assert(before.stage matches StageView::Discarding { added, .. } && added);
    assert(one_back.len() >= 1);
    let two_back = one_back.drop_last();
    assert(results.take(n - 2) =~= two_back);
    assert(results[n - 2] == one_back.last());
    let origin = first.run(two_back);
    lemma_settles_never_remove(origin, one_back.last());
}

/// The old torrent is removed only once the fetched file is removed after
/// the client took it, and the file is removed only after it was added.
proof fn lemma_settles_never_remove(v: ReconcilerView, result: CallResultView)
    ensures
        v.receive(result).stage is RemovingOld ==> (v.stage matches StageView::Discarding {
            added,
            ..
        } && added) && v.receive(result).position == v.position,
        v.receive(result).stage is Discarding ==> v.stage is Adding && v.receive(result).position
            == v.position && (v.receive(result).stage->Discarding_added <==> !(result is Failed)),
{
    lemma_settle_stage(ReconcilerView { position: v.position + 1, failed: v.failed + 1, ..v });
    lemma_settle_stage(ReconcilerView { position: v.position + 1, updated: v.updated + 1, ..v });
    lemma_settle_stage(ReconcilerView { position: v.position + 1, deleted: v.deleted + 1, ..v });
}

/// Going on to the next torrent leaves a pass waiting for a download or a
/// deletion, or over.
proof fn lemma_settle_stage(v: ReconcilerView)
    ensures
        v.settle().stage is Downloading || v.settle().stage is Deleting || v.settle().stage is Over,
    decreases v.torrents.len() - v.position,
{
    if v.position < v.torrents.len() {
        let next = ReconcilerView { position: v.position + 1, ..v };
        lemma_settle_stage(next);
        lemma_settle_stage(ReconcilerView { updated: v.updated + 1, ..next });
        lemma_settle_stage(ReconcilerView { deleted: v.deleted + 1, ..next });
        lemma_settle_stage(ReconcilerView { failed: v.failed + 1, ..next });
    }
}

/// A pass needs two results before it can come to remove an old torrent.
proof fn lemma_run_stage(first: ReconcilerView, results: Seq<CallResultView>)
    requires
        first.stage is Downloading || first.stage is Deleting || first.stage is Over,
    ensures
        results.len() == 0 ==> !(first.run(results).stage is RemovingOld) && !(first.run(
            results,
        ).stage is Discarding) && !(first.run(results).stage is Adding),
        results.len() == 1 ==> !(first.run(results).stage is RemovingOld) && !(first.run(
            results,
        ).stage is Discarding),
{
    if results.len() == 1 {
        assert(results.drop_last() =~= Seq::empty());
        assert(first.run(results.drop_last()) == first);
        lemma_settles_never_remove(first, results.last());
    }
}

/// One pass over the working set that carries the verdicts out.
pub struct Reconciler {
    torrents: Vec<Torrent>,
    resolved: Vec<(String, Option<String>)>,
    dry_run: bool,
    position: usize,
    stage: Stage,
    updated: usize,
    deleted: usize,
    failed: usize,
}

impl View for Reconciler {
    type V = ReconcilerView;

    closed spec fn view(&self) -> ReconcilerView {
        ReconcilerView {
            torrents: torrent_views(self.torrents@),
            resolved: entry_views(self.resolved@),
            dry_run: self.dry_run,
            position: self.position as nat,
            stage: self.stage@,
            updated: self.updated as nat,
            deleted: self.deleted as nat,
            failed: self.failed as nat,
        }
    }
}

impl Reconciler {
    /// The pass is in a state that `new` and `receive` can have left.
    pub open spec fn wf(&self) -> bool {
        self@.wf()
    }

    /// Goes on to the first torrent that needs a call.
    fn settle(&mut self)
        requires
            old(self).position <= old(self).torrents.len(),
            old(self).updated + old(self).deleted + old(self).failed <= old(self).position,
        ensures
            final(self)@ == old(self)@.settle(),
            final(self).wf(),
    {
        proof {
            lemma_settle(self@);
        }
        loop
            invariant
                self.position <= self.torrents.len(),
                self.updated + self.deleted + self.failed <= self.position,
                self@.settle() == old(self)@.settle(),
                old(self)@.settle().wf(),
            decreases self.torrents.len() - self.position,
        {
            if self.position >= self.torrents.len() {
                self.stage = Stage::Over;
                return ;
            }
            let verdict = classify(&self.torrents[self.position], &self.resolved);
            assert(self@.current() == self.torrents@[self.position as int]@);
            match verdict {
                None => {},
                Some(Verdict::Unchanged) => {},
                Some(Verdict::UpdatedTo(_)) => {
                    if self.dry_run {
                        self.updated = self.updated + 1;
                    } else {
                        match parse_u64(self.torrents[self.position].torrent_id.as_str()) {
                            Some(topic_id) => {
                                self.stage = Stage::Downloading { topic_id };
                                return ;
                            },
                            None => {
                                self.failed = self.failed + 1;
                            },
                        }
                    }
                },
                Some(Verdict::Retracted) => {
                    if self.dry_run {
                        self.deleted = self.deleted + 1;
                    } else {
                        self.stage = Stage::Deleting;
                        return ;
                    }
                },
            }
            self.position = self.position + 1;
        }
    }

    /// A pass over `torrents` that acts on the hashes `resolved` that the
    /// tracker told for topic ids. With `dry_run` the pass makes no call
    /// and only counts.
    pub fn new(torrents: Vec<Torrent>, resolved: Vec<(String, Option<String>)>, dry_run: bool) -> (pass:
        Self)
        ensures
            pass.wf(),
            pass@ == ReconcilerView::start(
                torrent_views(torrents@),
                entry_views(resolved@),
                dry_run,
            ),
    {
        let mut pass = Reconciler {
            torrents,
            resolved,
            dry_run,
            position: 0,
            stage: Stage::Over,
            updated: 0,
            deleted: 0,
            failed: 0,
        };
        pass.settle();
        pass
    }

    /// Whether the pass is over.
    pub fn is_over(&self) -> (over: bool)
        ensures
            over == self@.over(),
    {
        match self.stage {
            Stage::Over => true,
            _ => false,
        }
    }

    /// The torrent in hand, while the pass is not over.
    pub fn current(&self) -> (torrent: Option<&Torrent>)
        requires
            self.wf(),
        ensures
            match torrent {
                Some(t) => !self@.over() && t@ == self@.current(),
                None => self@.over(),
            },
    {
        if self.is_over() {
            None
        } else {
            Some(&self.torrents[self.position])
        }
    }

    /// The call to make next; none once the pass is over.
    pub fn next_call(&self) -> (call: Option<ClientCall>)
        requires
            self.wf(),
        ensures
            call_view(call) == self@.call(),
    {
        match &self.stage {
            Stage::Downloading { topic_id } => Some(ClientCall::Download { topic_id: *topic_id }),
            Stage::Adding { file } => {
                let t = &self.torrents[self.position];
                Some(
                    ClientCall::AddTorrent {
                        file: file.clone(),
                        save_path: t.save_path.clone(),
                        category: t.category.clone(),
                        tags: t.tags.clone(),
                    },
                )
            },
            Stage::Discarding { file, added } => Some(ClientCall::RemoveFile { file: file.clone() }),
            Stage::RemovingOld => {
                let t = &self.torrents[self.position];
                Some(ClientCall::DeleteTorrent { hash: t.torrent_hash.clone(), delete_data: false })
            },
            Stage::Deleting => {
                let t = &self.torrents[self.position];
                Some(ClientCall::DeleteTorrent { hash: t.torrent_hash.clone(), delete_data: true })
            },
            Stage::Over => None,
        }
    }

    /// Leaves the torrent in hand, counted as `outcome` says, and goes on.
    fn leave(&mut self, outcome: Leaving)
        requires
            old(self).wf(),
            !old(self)@.over(),
        ensures
            final(self).wf(),
            final(self)@ == (ReconcilerView {
                position: old(self)@.position + 1,
                updated: old(self)@.updated + if outcome is Updated {
                    1nat
                } else {
                    0
                },
                deleted: old(self)@.deleted + if outcome is Deleted {
                    1nat
                } else {
                    0
                },
                failed: old(self)@.failed + if outcome is GivenUp {
                    1nat
                } else {
                    0
                },
                ..old(self)@
            }).settle(),
    {
        assert(self.position < self.torrents.len()) by {
            assert(self@.position <= self@.torrents.len());
            assert(self@.torrents.len() == self.torrents@.len());
        }
        match outcome {
            Leaving::Updated => {
                self.updated = self.updated + 1;
            },
            Leaving::Deleted => {
                self.deleted = self.deleted + 1;
            },
            Leaving::GivenUp => {
                self.failed = self.failed + 1;
            },
        }
        self.position = self.position + 1;
        self.settle();
    }

    /// Takes the result of the pending call.
    pub fn receive(&mut self, result: CallResult)
        requires
            old(self).wf(),
        ensures
            final(self).wf(),
            final(self)@ == old(self)@.receive(result@),
    {
        let failed = match result {
            CallResult::Failed => true,
            _ => false,
        };
        match &self.stage {
            Stage::Downloading { topic_id } => {
                match result {
                    CallResult::Downloaded(file) => {
                        self.stage = Stage::Adding { file };
                    },
                    _ => {
                        self.leave(Leaving::GivenUp);
                    },
                }
            },
            Stage::Adding { file } => {
                self.stage = Stage::Discarding { file: file.clone(), added: !failed };
            },
            Stage::Discarding { file, added } => {
                if *added {
                    self.stage = Stage::RemovingOld;
                } else {
                    self.leave(Leaving::GivenUp);
                }
            },
            Stage::RemovingOld => {
                if failed {
                    self.leave(Leaving::GivenUp);
                } else {
                    self.leave(Leaving::Updated);
                }
            },
            Stage::Deleting => {
                if failed {
                    self.leave(Leaving::GivenUp);
                } else {
                    self.leave(Leaving::Deleted);
                }
            },
            Stage::Over => {},
        }
    }

    /// The torrents updated and deleted so far.
    pub fn summary(&self) -> (summary: RunSummary)
        ensures
            summary.updated == self@.updated,
            summary.deleted == self@.deleted,
    {
        RunSummary { updated: self.updated, deleted: self.deleted }
    }

    /// The torrents whose update or deletion was given up so far.
    pub fn failed(&self) -> (failed: usize)
        ensures
            failed == self@.failed,
    {
        self.failed
    }
}

/// How a pass leaves a torrent.
enum Leaving {
    Updated,
    Deleted,
    GivenUp,
}

} // verus!
