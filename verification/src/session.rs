//! One run from the client's inventory to the report: which torrents of
//! the inventory are worked on, the phases that a run goes through, and
//! the line that reports its result.

use crate::numbers::{decimal, push_decimal};
use crate::reconcile::RunSummary;
use crate::rutracker_api::{extract_torrent_id_from_comment, topic_id_in};
use crate::text::{contains, contains_text};
use crate::torrent::{Torrent, TorrentView};
use vstd::prelude::*;
use vstd::string::StringExecFns;

verus! {

/// What the client tells of one torrent in its list. A field is `None`
/// where the client left it out.
#[derive(Clone, Debug, Default)]
pub struct InventoryEntry {
    pub name: Option<String>,
    pub hash: Option<String>,
    pub tracker: Option<String>,
    pub save_path: Option<String>,
    pub state: Option<String>,
    pub category: Option<String>,
    pub tags: Option<String>,
    pub size: Option<i64>,
}

/// The text of an optional string, an absent one counting as empty.
pub open spec fn text_or_empty(s: Option<String>) -> Seq<char> {
    match s {
        Some(text) => text@,
        None => Seq::empty(),
    }
}

/// The size that the client told, as an unsigned number: an absent size
/// counts as zero, and a negative one wraps around.
pub open spec fn size_or_zero(size: Option<i64>) -> u64 {
    match size {
        Some(bytes) => if bytes >= 0 {
            bytes as u64
        } else {
            (bytes + 0x1_0000_0000_0000_0000) as u64
        },
        None => 0,
    }
}

/// The word by which a tracker address is known to belong to the tracker.
pub const TRACKER_MARK: &'static str = "rutracker";

/// Whether a torrent of the inventory is worked on.
#[derive(Clone, Copy, Debug, PartialEq, Eq)]
pub enum Admission {
    /// The client told no hash for the torrent.
    NoHash,
    /// The torrent comes from another tracker.
    OtherTracker,
    /// The torrent is worked on.
    Accepted,
}

/// Whether `entry` is worked on: it has a hash, and its tracker address
/// holds the tracker's mark.
pub open spec fn admission_of(entry: InventoryEntry) -> Admission {
    if text_or_empty(entry.hash).len() == 0 {
        Admission::NoHash
    } else if !contains(text_or_empty(entry.tracker), TRACKER_MARK@) {
        Admission::OtherTracker
    } else {
        Admission::Accepted
    }
}

/// The string, or the empty string where there is none.
fn owned_or_empty(s: &Option<String>) -> (text: String)
    ensures
        text@ == text_or_empty(*s),
{
    match s {
        Some(text) => text.clone(),
        None => String::new(),
    }
}

/// Decides whether a torrent of the inventory is worked on.
pub fn admission(entry: &InventoryEntry) -> (admission: Admission)
    ensures
        admission == admission_of(*entry),
{
    let has_hash = match &entry.hash {
        Some(hash) => !hash.as_str().is_empty(),
        None => false,
    };
    if !has_hash {
        return Admission::NoHash;
    }
    let ours = match &entry.tracker {
        Some(tracker) => contains_text(tracker.as_str(), TRACKER_MARK),
        None => {
            let empty = String::new();
            contains_text(empty.as_str(), TRACKER_MARK)
        },
    };
    if ours {
        Admission::Accepted
    } else {
        Admission::OtherTracker
    }
}

/// The torrent that an entry of the inventory and its comment make: the
/// topic id is read out of the comment, the peers are not yet known.
pub open spec fn torrent_of(entry: InventoryEntry, comment: Option<String>) -> TorrentView {
    TorrentView {
        name: text_or_empty(entry.name),
        torrent_hash: text_or_empty(entry.hash),
        torrent_id: topic_id_in(text_or_empty(comment)),
        tracker: text_or_empty(entry.tracker),
        comment: text_or_empty(comment),
        state: text_or_empty(entry.state),
        category: text_or_empty(entry.category),
        tags: text_or_empty(entry.tags),
        size: size_or_zero(entry.size),
        seeders: 0,
        leechers: 0,
        save_path: text_or_empty(entry.save_path),
    }
}

/// A torrent that is worked on has a hash, and keeps what the client
/// told of its placement.
pub proof fn lemma_accepted_torrent_has_a_hash(entry: InventoryEntry, comment: Option<String>)
    requires
        admission_of(entry) == Admission::Accepted,
    ensures
        torrent_of(entry, comment).torrent_hash.len() > 0,
        contains(torrent_of(entry, comment).tracker, TRACKER_MARK@),
        torrent_of(entry, comment).save_path == text_or_empty(entry.save_path),
        torrent_of(entry, comment).category == text_or_empty(entry.category),
        torrent_of(entry, comment).tags == text_or_empty(entry.tags),
{
}

/// Makes the torrent to work on from an entry of the inventory and the
/// comment that the client holds for it.
pub fn torrent_from_entry(entry: &InventoryEntry, comment: &Option<String>) -> (torrent: Torrent)
    ensures
        torrent@ == torrent_of(*entry, *comment),
{
    let comment_text = owned_or_empty(comment);
    let torrent_id = extract_torrent_id_from_comment(comment_text.as_str());
    let size: u64 = match entry.size {
        Some(bytes) => if bytes >= 0 {
            bytes as u64
        } else {
            (bytes as i128 + 0x1_0000_0000_0000_0000i128) as u64
        },
        None => 0,
    };
    Torrent {
        name: owned_or_empty(&entry.name),
        torrent_hash: owned_or_empty(&entry.hash),
        torrent_id,
        tracker: owned_or_empty(&entry.tracker),
        comment: comment_text,
        state: owned_or_empty(&entry.state),
        category: owned_or_empty(&entry.category),
        tags: owned_or_empty(&entry.tags),
        size,
        seeders: 0,
        leechers: 0,
        save_path: owned_or_empty(&entry.save_path),
    }
}

/// Where a run stands.
#[derive(Clone, Copy, Debug, PartialEq, Eq, Structural)]
pub enum Phase {
    CollectingInventory,
    RefreshingStats,
    ResolvingHashes,
    Acting,
    Summarizing,
    Done,
}

/// What has happened in a run.
#[derive(Clone, Copy, Debug)]
pub enum SessionEvent {
    /// The inventory is collected; so many of its torrents are worked on.
    InventoryCollected { torrents: usize },
    /// The peers are refreshed; so many topic ids are flagged.
    StatsRefreshed { flagged: usize },
    /// The hashes of the flagged topics are resolved.
    HashesResolved,
    /// The verdicts are carried out, with this result.
    Acted { summary: RunSummary },
    /// The result is reported.
    Reported,
}

impl Phase {
    /// How far a phase is into the run.
    pub open spec fn rank(self) -> nat {
        match self {
            Phase::CollectingInventory => 0,
            Phase::RefreshingStats => 1,
            Phase::ResolvingHashes => 2,
            Phase::Acting => 3,
            Phase::Summarizing => 4,
            Phase::Done => 5,
        }
    }

    /// `event` is what this phase waits for.
    pub open spec fn awaits(self, event: SessionEvent) -> bool {
        match (self, event) {
            (Phase::CollectingInventory, SessionEvent::InventoryCollected { .. }) => true,
            (Phase::RefreshingStats, SessionEvent::StatsRefreshed { .. }) => true,
            (Phase::ResolvingHashes, SessionEvent::HashesResolved) => true,
            (Phase::Acting, SessionEvent::Acted { .. }) => true,
            (Phase::Summarizing, SessionEvent::Reported) => true,
            _ => false,
        }
    }

    /// The phase that follows this one on `event`. An empty inventory and
    /// an empty set of flagged ids lead straight to the summary; an event
    /// that the phase does not wait for changes nothing.
    pub open spec fn after(self, event: SessionEvent) -> Phase {
        match (self, event) {
            (Phase::CollectingInventory, SessionEvent::InventoryCollected { torrents }) => if torrents
                == 0 {
                Phase::Summarizing
            } else {
                Phase::RefreshingStats
            },
            (Phase::RefreshingStats, SessionEvent::StatsRefreshed { flagged }) => if flagged == 0 {
                Phase::Summarizing
            } else {
                Phase::ResolvingHashes
            },
            (Phase::ResolvingHashes, SessionEvent::HashesResolved) => Phase::Acting,
            (Phase::Acting, SessionEvent::Acted { .. }) => Phase::Summarizing,
            (Phase::Summarizing, SessionEvent::Reported) => Phase::Done,
            _ => self,
        }
    }
}

/// The state of a run, as plain values.
pub struct SessionView {
    pub phase: Phase,
    pub dry_run: bool,
    pub updated: nat,
    pub deleted: nat,
}

impl SessionView {
    /// A run before anything has happened.
    pub open spec fn start(dry_run: bool) -> Self {
        SessionView { phase: Phase::CollectingInventory, dry_run, updated: 0, deleted: 0 }
    }

    /// The run after `event`. The counts are those of the pass that
    /// carried the verdicts out; a run that never came to act counts
    /// nothing.
    pub open spec fn after(self, event: SessionEvent) -> Self {
        match (self.phase, event) {
            (Phase::Acting, SessionEvent::Acted { summary }) => SessionView {
                phase: Phase::Summarizing,
                updated: summary.updated as nat,
                deleted: summary.deleted as nat,
                ..self
            },
            _ => SessionView { phase: self.phase.after(event), ..self },
        }
    }

    /// The run after `events`, one after another.
    pub open spec fn run(self, events: Seq<SessionEvent>) -> Self
        decreases events.len(),
    {
        if events.len() == 0 {
            self
        } else {
            self.run(events.drop_last()).after(events.last())
        }
    }
}

/// The line that reports a run's result.
pub open spec fn summary_text(updated: nat, deleted: nat, dry_run: bool) -> Seq<char> {
    if updated == 0 && deleted == 0 {
        "--- 📊 Сводка: Все торренты актуальны. Обновлений не найдено. ---"@
    } else if dry_run {
        "--- 📊 Сводка (Dry Run): Было бы обновлено: "@ + decimal(updated) + ", Было бы удалено: "@
            + decimal(deleted) + " ---"@
    } else {
        "--- 📊 Сводка: Обновлено: "@ + decimal(updated) + ", Удалено: "@ + decimal(deleted)
            + " ---"@
    }
}

/// Writes the line that reports a run's result. In a dry run the counts
/// are reported as what would have been done.
pub fn summary_line(summary: RunSummary, dry_run: bool) -> (line: String)
    ensures
        line@ == summary_text(summary.updated as nat, summary.deleted as nat, dry_run),
{
    if summary.updated == 0 && summary.deleted == 0 {
        return String::from_str("--- 📊 Сводка: Все торренты актуальны. Обновлений не найдено. ---");
    }
    let mut line = if dry_run {
        String::from_str("--- 📊 Сводка (Dry Run): Было бы обновлено: ")
    } else {
        String::from_str("--- 📊 Сводка: Обновлено: ")
    };
    push_decimal(&mut line, summary.updated as u64);
    if dry_run {
        line.append(", Было бы удалено: ");
    } else {
        line.append(", Удалено: ");
    }
    push_decimal(&mut line, summary.deleted as u64);
    line.append(" ---");
    line
}

/// A run in progress.
pub struct Session {
    phase: Phase,
    dry_run: bool,
    summary: RunSummary,
}

impl View for Session {
    type V = SessionView;

    closed spec fn view(&self) -> SessionView {
        SessionView {
            phase: self.phase,
            dry_run: self.dry_run,
            updated: self.summary.updated as nat,
            deleted: self.summary.deleted as nat,
        }
    }
}

impl Session {
    /// A run that has not begun.
    pub fn new(dry_run: bool) -> (session: Self)
        ensures
            session@ == SessionView::start(dry_run),
    {
        Session { phase: Phase::CollectingInventory, dry_run, summary: RunSummary { updated: 0, deleted: 0 } }
    }

    /// Where the run stands.
    pub fn phase(&self) -> (phase: Phase)
        ensures
            phase == self@.phase,
    {
        self.phase
    }

    /// The counts of the run so far.
    pub fn summary(&self) -> (summary: RunSummary)
        ensures
            summary.updated == self@.updated,
            summary.deleted == self@.deleted,
    {
        self.summary
    }

    /// Takes note of what has happened and moves to the phase that
    /// follows.
    pub fn advance(&mut self, event: SessionEvent)
        ensures
            final(self)@ == old(self)@.after(event),
    {
        match (self.phase, event) {
            (Phase::CollectingInventory, SessionEvent::InventoryCollected { torrents }) => {
                self.phase = if torrents == 0 {
                    Phase::Summarizing
                } else {
                    Phase::RefreshingStats
                };
            },
            (Phase::RefreshingStats, SessionEvent::StatsRefreshed { flagged }) => {
                self.phase = if flagged == 0 {
                    Phase::Summarizing
                } else {
                    Phase::ResolvingHashes
                };
            },
            (Phase::ResolvingHashes, SessionEvent::HashesResolved) => {
                self.phase = Phase::Acting;
            },
            (Phase::Acting, SessionEvent::Acted { summary }) => {
                self.summary = summary;
                self.phase = Phase::Summarizing;
            },
            (Phase::Summarizing, SessionEvent::Reported) => {
                self.phase = Phase::Done;
            },
            _ => {},
        }
    }

    /// The line that reports the run's result.
    pub fn report(&self) -> (line: String)
        ensures
            line@ == summary_text(self@.updated, self@.deleted, self@.dry_run),
    {
        summary_line(self.summary, self.dry_run)
    }
}

/// No event takes a run back to an earlier phase, and the event that a
/// phase waits for takes the run on.
pub proof fn lemma_phases_move_forward(session: SessionView, event: SessionEvent)
    ensures
        session.after(event).phase.rank() >= session.phase.rank(),
        session.phase.awaits(event) ==> session.after(event).phase.rank() > session.phase.rank(),
        !session.phase.awaits(event) ==> session.after(event) == session,
        session.after(event).dry_run == session.dry_run,
{
}

/// Whatever happens, a run only moves forward through its phases.
pub proof fn lemma_run_moves_forward(session: SessionView, events: Seq<SessionEvent>)
    ensures
        session.run(events).phase.rank() >= session.phase.rank(),
    decreases events.len(),
{
    if events.len() > 0 {
        lemma_run_moves_forward(session, events.drop_last());
        lemma_phases_move_forward(session.run(events.drop_last()), events.last());
    }
}

/// A run whose inventory is empty, or in which no topic is flagged, goes
/// straight to its summary and reports that nothing was updated or
/// deleted.
pub proof fn lemma_short_circuit(dry_run: bool, torrents: usize, flagged: usize)
    ensures
        SessionView::start(dry_run).after(SessionEvent::InventoryCollected { torrents: 0 })
            == (SessionView { phase: Phase::Summarizing, dry_run, updated: 0, deleted: 0 }),
        torrents > 0 ==> SessionView::start(dry_run).after(
            SessionEvent::InventoryCollected { torrents },
        ).after(SessionEvent::StatsRefreshed { flagged: 0 }) == (SessionView {
            phase: Phase::Summarizing,
            dry_run,
            updated: 0,
            deleted: 0,
        }),
{
}

} // verus!
