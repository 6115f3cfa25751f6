//! Keeps the torrents of a local client in step with the tracker that
//! published them: finds torrents that the tracker has republished under
//! a new hash or withdrawn, and decides what to do about each.

use crate::numbers::{decimal, push_decimal};
use crate::torrent::{debug_fields, struct_text, Torrent};
use vstd::prelude::*;
use vstd::string::StringExecFns;

pub mod batch;
pub mod numbers;
pub mod reconcile;
pub mod rutracker_api;
pub mod session;
pub mod text;
pub mod torrent;

verus! {

/// How to reach the torrent client.
#[derive(Debug)]
pub struct QbitConfig {
    pub url: String,
    pub username: String,
    pub password: String,
}

/// The session held with the tracker.
#[derive(Debug)]
pub struct RutrackerConfig {
    pub bb_session_cookie: String,
}

/// The settings of one run.
#[derive(Debug)]
pub struct Config {
    pub dry_run: bool,
    pub qbit: QbitConfig,
    pub rutracker: RutrackerConfig,
}

/// How many torrents a listing of the working set shows at most.
pub const LISTED_TORRENTS: usize = 6;

/// How many torrents a listing of `count` torrents shows: the last few.
pub open spec fn listed(count: nat) -> nat {
    if count < LISTED_TORRENTS {
        count
    } else {
        LISTED_TORRENTS as nat
    }
}

/// The line that heads a listing of the last `shown` of `count` torrents.
pub open spec fn listing_head(shown: nat, count: nat) -> Seq<char> {
    "--- Собранный массив (показаны последние "@ + decimal(shown) + " из "@ + decimal(count)
        + " шт.) ---"@
}

/// Lists the end of the working set for the log: a heading that tells how
/// many torrents are shown out of how many, then the last torrents, each
/// on one line.
pub fn _log_summary(my_torrents: &[Torrent]) -> (lines: Vec<String>)
    ensures
        lines@.len() == 1 + listed(my_torrents@.len()),
        lines@[0]@ == listing_head(listed(my_torrents@.len()), my_torrents@.len()),
        forall|i: int|
            0 <= i < listed(my_torrents@.len()) ==> (#[trigger] lines@[1 + i])@ == struct_text(
                "Torrent"@,
                debug_fields(my_torrents@[my_torrents@.len() - listed(my_torrents@.len()) + i]@),
            ),
{
    let count = my_torrents.len();
    let shown: usize = if count < LISTED_TORRENTS {
        count
    } else {
        LISTED_TORRENTS
    };
    let start_index = count - shown;
    let mut head = String::from_str("--- Собранный массив (показаны последние ");
    push_decimal(&mut head, shown as u64);
    head.append(" из ");
    push_decimal(&mut head, count as u64);
    head.append(" шт.) ---");
    let mut lines: Vec<String> = Vec::new();
    lines.push(head);
    let mut i: usize = 0;
    while i < shown
        invariant
            i <= shown,
            shown == listed(my_torrents@.len()),
            start_index + shown == my_torrents@.len(),
            start_index + shown <= usize::MAX,
            lines@.len() == 1 + i,
            lines@[0]@ == listing_head(shown as nat, my_torrents@.len()),
            forall|j: int|
                0 <= j < i ==> (#[trigger] lines@[1 + j])@ == struct_text(
                    "Torrent"@,
                    debug_fields(my_torrents@[start_index + j]@),
                ),
        decreases shown - i,
    {
        lines.push(my_torrents[start_index + i].debug_string());
        i += 1;
    }
    lines
}

} // verus!
