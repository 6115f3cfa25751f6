//! The tracker's remote interface: what is read out of free text, and the
//! rules of the batched queries.

use crate::batch::{
    entry_views, find_entry_from, lemma_lookup_is_last_entry, lemma_run_keeps_notes,
    lemma_start_notes_agree, lemma_start_wf, lookup, place_pairs, places, BatchOutcome, BatchQuery,
    BatchQueryView, BatchReplyView,
};
use crate::numbers::{decimal, push_decimal};
use crate::text::{
    after_last, chars_of, contains, contains_text, find_last, join, joined, occurs_at, texts, trim,
    trim_bounds,
};
use crate::torrent::{torrent_views, Torrent, TorrentView};
use vstd::prelude::*;
use vstd::string::{StrSliceExecFns, StringExecFns, StringSliceAdditionalSpecFns};
use vstd::utf8::encode_utf8;

verus! {

/// The marker that precedes a topic id in a torrent's comment.
pub open spec fn topic_marker() -> Seq<char> {
    seq!['t', '=']
}

/// The marker that precedes the offending hash in an error text.
pub open spec fn invalid_hash_marker() -> Seq<char> {
    seq!['I', 'n', 'v', 'a', 'l', 'i', 'd', ' ', 'h', 'a', 's', 'h', ':', ' ']
}

/// The topic id named in a comment: everything that follows the last
/// `t=`, or nothing where the comment holds no `t=`.
pub open spec fn topic_id_in(comment: Seq<char>) -> Seq<char> {
    match after_last(comment, topic_marker()) {
        Some(rest) => rest,
        None => Seq::empty(),
    }
}

/// The hash named in an error text: what follows the last
/// `Invalid hash: `, without surrounding white space.
pub open spec fn invalid_hash_in(error_text: Seq<char>) -> Option<Seq<char>> {
    match after_last(error_text, invalid_hash_marker()) {
        Some(rest) => Some(trim(rest)),
        None => None,
    }
}

/// Reads the topic id out of a torrent's comment. The id is whatever
/// follows the last `t=`; a comment without the marker gives the empty
/// string.
pub fn extract_torrent_id_from_comment(comment: &str) -> (id: String)
    ensures
        id@ == topic_id_in(comment@),
{
    let text = chars_of(comment);
    let marker: Vec<char> = vec!['t', '='];
    assert(marker@ =~= topic_marker());
    match find_last(&text, &marker) {
        Some(at) => {
            assert(occurs_at(text@, marker@, at as int) && at + 2 <= text.len());
            let rest = comment.substring_char(at + 2, text.len());
            rest.to_owned()
        },
        None => String::new(),
    }
}

/// Reads the rejected hash out of the tracker's error text, if the text
/// names one.
pub fn extract_invalid_hash<'a>(error_text: &'a str) -> (hash: Option<&'a str>)
    ensures
        match hash {
            Some(h) => invalid_hash_in(error_text@) == Some(h@),
            None => invalid_hash_in(error_text@) is None,
        },
{
    let text = chars_of(error_text);
    let marker: Vec<char> = vec!['I', 'n', 'v', 'a', 'l', 'i', 'd', ' ', 'h', 'a', 's', 'h', ':', ' '];
    assert(marker@ =~= invalid_hash_marker());
    match find_last(&text, &marker) {
        Some(at) => {
            assert(occurs_at(text@, marker@, at as int) && at + 14 <= text.len());
            let (from, to) = trim_bounds(&text, at + 14);
            Some(error_text.substring_char(from, to))
        },
        None => None,
    }
}

/// Where the tracker tells the largest number of keys in one request.
pub const API_LIMIT_URL: &'static str = "https://api.rutracker.cc/v1/get_limit";

/// Where the tracker tells the peers of torrents, by hash.
pub const API_PEER_STATS_URL: &'static str = "https://api.rutracker.cc/v1/get_peer_stats?by=hash&val=";

/// Where the tracker tells the hash of topics, by topic id.
pub const API_TOR_HASH_URL: &'static str = "https://api.rutracker.cc/v1/get_tor_hash?by=topic_id&val=";

/// What the tracker knows of the peers of one torrent.
#[derive(Clone, Copy, Debug, PartialEq, Eq)]
pub struct PeerStats {
    pub seeders: u32,
    pub leechers: u32,
    /// When a seeder was last seen, in seconds since the epoch.
    pub last_seen: i64,
}

/// The address of a request to `endpoint` for `keys`.
pub open spec fn request_url(endpoint: Seq<char>, keys: Seq<Seq<char>>) -> Seq<char> {
    endpoint + joined(keys, ","@)
}

/// The address that asks for the peers of the torrents with the hashes
/// `keys`.
pub fn peer_stats_url(keys: &Vec<String>) -> (url: String)
    ensures
        url@ == request_url(API_PEER_STATS_URL@, texts(keys@)),
{
    let mut url = String::from_str(API_PEER_STATS_URL);
    let list = join(keys, ",");
    url.append(list.as_str());
    url
}

/// The address that asks for the hashes of the topics with the ids `keys`.
pub fn tor_hash_url(keys: &Vec<String>) -> (url: String)
    ensures
        url@ == request_url(API_TOR_HASH_URL@, texts(keys@)),
{
    let mut url = String::from_str(API_TOR_HASH_URL);
    let list = join(keys, ",");
    url.append(list.as_str());
    url
}

/// The hashes of `torrents`, in their order.
pub open spec fn hashes_of(torrents: Seq<TorrentView>) -> Seq<Seq<char>> {
    torrents.map_values(|t: TorrentView| t.torrent_hash)
}

/// The keys by which the tracker is asked for the peers of `torrents`:
/// their hashes, in their order.
pub fn peer_stats_keys(torrents: &Vec<Torrent>) -> (keys: Vec<String>)
    ensures
        texts(keys@) == hashes_of(torrent_views(torrents@)),
{
    let mut keys: Vec<String> = Vec::new();
    let mut i: usize = 0;
    while i < torrents.len()
        invariant
            i <= torrents.len(),
            texts(keys@) == hashes_of(torrent_views(torrents@)).take(i as int),
        decreases torrents.len() - i,
    {
        let ghost before = texts(keys@);
        keys.push(torrents[i].torrent_hash.clone());
        assert(texts(keys@) =~= before.push(torrents@[i as int]@.torrent_hash));
        assert(texts(keys@) =~= hashes_of(torrent_views(torrents@)).take(i + 1));
        i += 1;
    }
    assert(hashes_of(torrent_views(torrents@)).take(i as int) =~= hashes_of(
        torrent_views(torrents@),
    ));
    keys
}

/// The query that asks the tracker for the peers of `torrents`, by their
/// hashes. The place of a key among the keys of the query is the place of
/// its torrent among `torrents`.
pub fn peer_stats_query(torrents: &Vec<Torrent>, limit: usize) -> (query: BatchQuery<PeerStats>)
    requires
        limit > 0 || torrents.len() == 0,
    ensures
        query.wf(),
        query@ == BatchQueryView::<PeerStats>::start(
            hashes_of(torrent_views(torrents@)),
            limit as nat,
        ),
{
    let keys = peer_stats_keys(torrents);
    assert(keys@.len() == texts(keys@).len());
    BatchQuery::new(keys, limit)
}

/// The query that asks the tracker for the current hashes of the topics
/// `ids`. Without ids it is over before any request.
pub fn tor_hash_query(ids: Vec<String>, limit: usize) -> (query: BatchQuery<String>)
    requires
        limit > 0 || ids.len() == 0,
    ensures
        query.wf(),
        query@ == BatchQueryView::<String>::start(texts(ids@), limit as nat),
        ids.len() == 0 ==> query@.finished(),
{
    BatchQuery::new(ids, limit)
}

/// The entry that counts for `key` among `entries`: the last one.
pub fn find_entry<'a, V>(entries: &'a Vec<(String, Option<V>)>, key: &str) -> (found: Option<
    &'a Option<V>,
>)
    ensures
        match found {
            Some(value) => lookup(entry_views(entries@), key@) == Some(*value),
            None => lookup(entry_views(entries@), key@) is None,
        },
{
    proof {
        assert(entry_views(entries@).skip(0) =~= entry_views(entries@));
        lemma_lookup_is_last_entry(entry_views(entries@), key@);
    }
    match find_entry_from(entries, 0, key) {
        Some(i) => Some(&entries[i].1),
        None => None,
    }
}

/// Whether `items` holds a string that reads `text`.
pub fn holds_text(items: &Vec<String>, text: &str) -> (held: bool)
    ensures
        held == texts(items@).contains(text@),
{
    let wanted = text.to_owned();
    let mut i: usize = 0;
    while i < items.len()
        invariant
            i <= items.len(),
            wanted@ == text@,
            forall|j: int| 0 <= j < i ==> texts(items@)[j] != text@,
        decreases items.len() - i,
    {
        if items[i] == wanted {
            assert(texts(items@)[i as int] == text@);
            return true;
        }
        i += 1;
    }
    false
}

/// The torrents with the counters that the tracker told: for each note
/// of a key answered by an entry, the torrent at the key's place gets the
/// seeders and leechers of that entry, if the entry holds any. A note
/// that points outside the torrents or the values changes nothing.
pub open spec fn refreshed_by(
    torrents: Seq<TorrentView>,
    told: Seq<(nat, nat)>,
    values: Seq<(Seq<char>, Option<PeerStats>)>,
) -> Seq<TorrentView>
    decreases told.len(),
{
    if told.len() == 0 {
        torrents
    } else {
        let earlier = refreshed_by(torrents, told.drop_last(), values);
        let place = told.last().0 as int;
        let at = told.last().1 as int;
        if place < earlier.len() && at < values.len() {
            match values[at].1 {
                Some(stats) => earlier.update(
                    place,
                    TorrentView { seeders: stats.seeders, leechers: stats.leechers, ..earlier[place] },
                ),
                None => earlier,
            }
        } else {
            earlier
        }
    }
}

/// The topic ids of the torrents at the places `unknown`, in that order.
/// Torrents without a topic id are passed over, and so are places where
/// no torrent stands.
pub open spec fn flagged_ids(torrents: Seq<TorrentView>, unknown: Seq<nat>) -> Seq<Seq<char>>
    decreases unknown.len(),
{
    if unknown.len() == 0 {
        Seq::empty()
    } else {
        let earlier = flagged_ids(torrents, unknown.drop_last());
        let place = unknown.last() as int;
        if place < torrents.len() && torrents[place].torrent_id.len() > 0 {
            earlier.push(torrents[place].torrent_id)
        } else {
            earlier
        }
    }
}

/// Refreshing the counters changes neither the number of the torrents
/// nor anything but seeders and leechers.
pub proof fn lemma_refresh_keeps_the_rest(
    torrents: Seq<TorrentView>,
    told: Seq<(nat, nat)>,
    values: Seq<(Seq<char>, Option<PeerStats>)>,
)
    ensures
        refreshed_by(torrents, told, values).len() == torrents.len(),
        forall|i: int|
            0 <= i < torrents.len() ==> (#[trigger] refreshed_by(torrents, told, values)[i])
                == (TorrentView {
                seeders: refreshed_by(torrents, told, values)[i].seeders,
                leechers: refreshed_by(torrents, told, values)[i].leechers,
                ..torrents[i]
            }),
    decreases told.len(),
{
    if told.len() > 0 {
        lemma_refresh_keeps_the_rest(torrents, told.drop_last(), values);
    }
}

/// A torrent of which no note speaks keeps its counters.
pub proof fn lemma_untold_torrent_keeps_counters(
    torrents: Seq<TorrentView>,
    told: Seq<(nat, nat)>,
    values: Seq<(Seq<char>, Option<PeerStats>)>,
    place: int,
)
    requires
        0 <= place < torrents.len(),
        forall|k: int|
            0 <= k < told.len() && (#[trigger] told[k]).0 == place ==> !(told[k].1 < values.len()
                && values[told[k].1 as int].1 is Some),
    ensures
        refreshed_by(torrents, told, values)[place] == torrents[place],
    decreases told.len(),
{
    lemma_refresh_keeps_the_rest(torrents, told, values);
    if told.len() > 0 {
        let earlier = told.drop_last();
        assert forall|k: int| 0 <= k < earlier.len() && (#[trigger] earlier[k]).0 == place implies !(
        earlier[k].1 < values.len() && values[earlier[k].1 as int].1 is Some) by {
            assert(earlier[k] == told[k]);
        }
        lemma_untold_torrent_keeps_counters(torrents, earlier, values, place);
        lemma_refresh_keeps_the_rest(torrents, earlier, values);
        assert(told.last() == told[told.len() - 1]);
    }
}

/// No flagged id is empty, and there are no more of them than places.
pub proof fn lemma_flagged_ids_are_ids(torrents: Seq<TorrentView>, unknown: Seq<nat>)
    ensures
        flagged_ids(torrents, unknown).len() <= unknown.len(),
        forall|k: int|
            0 <= k < flagged_ids(torrents, unknown).len() ==> (#[trigger] flagged_ids(
                torrents,
                unknown,
            )[k]).len() > 0,
    decreases unknown.len(),
{
    if unknown.len() > 0 {
        lemma_flagged_ids_are_ids(torrents, unknown.drop_last());
    }
}

/// A torrent whose hash a peer query has found unknown stands among the
/// torrents of the query and keeps its counters when the query's
/// findings are brought into the working set, whatever the tracker
/// replied.
pub proof fn lemma_unknown_torrents_keep_counters(
    torrents: Seq<TorrentView>,
    limit: nat,
    replies: Seq<BatchReplyView<PeerStats>>,
    u: int,
)
    requires
        limit > 0 || torrents.len() == 0,
        0 <= u < BatchQueryView::start(hashes_of(torrents), limit).run(replies).unknown.len(),
    ensures
        ({
            let found = BatchQueryView::start(hashes_of(torrents), limit).run(replies);
            let place = found.unknown[u] as int;
            &&& place < torrents.len()
            &&& refreshed_by(torrents, found.told, found.values)[place] == torrents[place]
        }),
{
    let first = BatchQueryView::<PeerStats>::start(hashes_of(torrents), limit);
    lemma_start_wf::<PeerStats>(hashes_of(torrents), limit);
    lemma_start_notes_agree::<PeerStats>(hashes_of(torrents), limit);
    lemma_run_keeps_notes(first, replies);
    lemma_run_keys(first, replies);
    let found = first.run(replies);
    let place = found.unknown[u] as int;
    assert(found.unknown[u] < found.sent);
    assert forall|k: int| 0 <= k < found.told.len() && (#[trigger] found.told[k]).0 == place implies !(
    found.told[k].1 < found.values.len() && found.values[found.told[k].1 as int].1 is Some) by {
        assert(found.told[k].0 == found.unknown[u]);
    }
    lemma_untold_torrent_keeps_counters(torrents, found.told, found.values, place);
}

/// Replies change neither the keys of a query nor its limit.
proof fn lemma_run_keys(
    query: BatchQueryView<PeerStats>,
    replies: Seq<BatchReplyView<PeerStats>>,
)
    ensures
        query.run(replies).keys == query.keys,
        query.run(replies).limit == query.limit,
    decreases replies.len(),
{
    if replies.len() > 0 {
        lemma_run_keys(query, replies.drop_last());
    }
}

/// Brings what a peer query has found into the working set. Each torrent
/// whose hash the reply to its own chunk answered with counters gets
/// them. The topic ids of the torrents whose hash the tracker was found
/// not to know are handed back in the order in which that was found: a
/// rejected hash when it was rejected, a hash answered with no record
/// when the reply to its chunk came in.
pub fn refresh_peer_stats(torrents: &mut Vec<Torrent>, outcome: &BatchOutcome<PeerStats>) -> (flagged:
    Vec<String>)
    ensures
        torrent_views(final(torrents)@) == refreshed_by(
            torrent_views(old(torrents)@),
            place_pairs(outcome.told@),
            entry_views(outcome.values@),
        ),
        texts(flagged@) == flagged_ids(torrent_views(old(torrents)@), places(outcome.unknown@)),
{
    let ghost before = torrent_views(torrents@);
    let ghost values = entry_views(outcome.values@);
    let ghost told = place_pairs(outcome.told@);
    let ghost unknown = places(outcome.unknown@);

    let mut flagged: Vec<String> = Vec::new();
    let mut k: usize = 0;
    assert(unknown.take(0) =~= Seq::empty());
    while k < outcome.unknown.len()
        invariant
            k <= outcome.unknown.len(),
            torrents@ == old(torrents)@,
            before == torrent_views(old(torrents)@),
            unknown == places(outcome.unknown@),
            texts(flagged@) == flagged_ids(before, unknown.take(k as int)),
        decreases outcome.unknown.len() - k,
    {
        let ghost seen = unknown.take(k + 1);
        assert(seen.drop_last() =~= unknown.take(k as int));
        assert(seen.last() == outcome.unknown@[k as int] as nat);
        let ghost ids = texts(flagged@);
        let place = outcome.unknown[k];
        if place < torrents.len() {
            assert(before[place as int] == torrents@[place as int]@);
            if !torrents[place].torrent_id.as_str().is_empty() {
                flagged.push(torrents[place].torrent_id.clone());
                assert(texts(flagged@) =~= ids.push(before[place as int].torrent_id));
            }
        }
        k += 1;
    }
    assert(unknown.take(k as int) =~= unknown);

    let mut n: usize = 0;
    assert(told.take(0) =~= Seq::empty());
    while n < outcome.told.len()
        invariant
            n <= outcome.told.len(),
            before == torrent_views(old(torrents)@),
            values == entry_views(outcome.values@),
            told == place_pairs(outcome.told@),
            torrent_views(torrents@) == refreshed_by(before, told.take(n as int), values),
        decreases outcome.told.len() - n,
    {
        let ghost seen = told.take(n + 1);
        assert(seen.drop_last() =~= told.take(n as int));
        assert(seen.last() == (outcome.told@[n as int].0 as nat, outcome.told@[n as int].1 as nat));
        let ghost earlier = torrent_views(torrents@);
        let place = outcome.told[n].0;
        let at = outcome.told[n].1;
        assert(earlier.len() == torrents@.len());
        if place < torrents.len() && at < outcome.values.len() {
            assert(values[at as int] == (outcome.values@[at as int].0@, outcome.values@[at as int].1));
            match &outcome.values[at].1 {
                Some(stats) => {
                    torrents[place].seeders = stats.seeders;
                    torrents[place].leechers = stats.leechers;
                    assert(torrent_views(torrents@) =~= earlier.update(
                        place as int,
                        TorrentView {
                            seeders: stats.seeders,
                            leechers: stats.leechers,
                            ..earlier[place as int]
                        },
                    ));
                },
                None => {},
            }
        }
        n += 1;
    }
    assert(told.take(n as int) =~= told);
    flagged
}

/// Where the tracker hands out the torrent file of a topic.
pub const DOWNLOAD_URL: &'static str = "https://rutracker.org/forum/dl.php?t=";

/// The content type of a torrent file.
pub const TORRENT_CONTENT_TYPE: &'static str = "application/x-bittorrent";

/// The browser that requests to the tracker's forum claim to come from.
pub const USER_AGENT: &'static str =
    "Mozilla/5.0 (Windows NT 10.0; Win64; x64) AppleWebKit/537.36 (KHTML, like Gecko) Chrome/100.0.0.0 Safari/537.36";

/// The address of the torrent file of the topic `topic_id`.
pub fn download_url(topic_id: u64) -> (url: String)
    ensures
        url@ == DOWNLOAD_URL@ + decimal(topic_id as nat),
{
    let mut url = String::from_str(DOWNLOAD_URL);
    push_decimal(&mut url, topic_id);
    url
}

/// The name under which the torrent file of the topic `topic_id` is kept
/// while it is handed to the client.
pub fn torrent_file_name(topic_id: u64) -> (name: String)
    ensures
        name@ == "t"@ + decimal(topic_id as nat) + ".torrent"@,
{
    let mut name = String::from_str("t");
    push_decimal(&mut name, topic_id);
    name.append(".torrent");
    name
}

/// An answer with this status and content type carries a torrent file:
/// the status is one of success, and the content type names a torrent.
pub open spec fn carries_torrent(status: u16, content_type: Option<Seq<char>>) -> bool {
    &&& 200 <= status < 300
    &&& content_type matches Some(declared)
    &&& contains(declared, TORRENT_CONTENT_TYPE@)
}

/// Whether the tracker's answer to a download carries a torrent file. An
/// answer that does not is what the tracker sends once the session has
/// run out.
pub fn is_torrent_payload(status: u16, content_type: Option<&str>) -> (accepted: bool)
    ensures
        accepted == carries_torrent(
            status,
            match content_type {
                Some(declared) => Some(declared@),
                None => None,
            },
        ),
{
    if status < 200 || status >= 300 {
        return false;
    }
    match content_type {
        Some(declared) => contains_text(declared, TORRENT_CONTENT_TYPE),
        None => false,
    }
}

/// What is reported where the tracker's answer carries no torrent file;
/// `status` is the answer's status as text.
pub fn download_error_text(status: &str) -> (text: String)
    ensures
        text@ == "Ошибка скачивания: сервер не вернул .torrent файл (статус: "@ + status@ + ")."@,
{
    let mut text = String::from_str("Ошибка скачивания: сервер не вернул .torrent файл (статус: ");
    text.append(status);
    text.append(").");
    text
}

/// The cookie that carries the tracker session `bb_session`.
pub fn session_cookie(bb_session: &str) -> (cookie: String)
    ensures
        cookie@ == "bb_session="@ + bb_session@,
{
    let mut cookie = String::from_str("bb_session=");
    cookie.append(bb_session);
    cookie
}

/// `reqwest::header::HeaderValue`: the value of a header, as requests
/// carry it.
#[verifier::external_type_specification]
#[verifier::external_body]
pub struct ExHeaderValue(reqwest::header::HeaderValue);

/// `reqwest::header::InvalidHeaderValue`: the error of a text that cannot
/// be the value of a header.
#[verifier::external_type_specification]
#[verifier::external_body]
pub struct ExInvalidHeaderValue(reqwest::header::InvalidHeaderValue);

/// The bytes that the value of a header holds.
pub uninterp spec fn header_bytes(value: reqwest::header::HeaderValue) -> Seq<u8>;

/// A byte that the value of a header may hold: the tab, and every byte
/// from the space on but the delete character.
pub open spec fn is_header_byte(b: u8) -> bool {
    (b >= 32 && b != 127) || b == 9
}

/// Every one of `bytes` may stand in the value of a header.
pub open spec fn is_header_value(bytes: Seq<u8>) -> bool {
    forall|i: int| 0 <= i < bytes.len() ==> is_header_byte(#[trigger] bytes[i])
}

/// `reqwest::header::HeaderValue::from_str`. It goes through the bytes of
/// the text and refuses the text if one of them is below the space and no
/// tab, or is the delete character; a text that it accepts becomes a
/// value that holds the text's bytes. Neither is proved here.
#[verifier::external_body]
fn header_value_from_str(text: &str) -> (value: Result<
    reqwest::header::HeaderValue,
    reqwest::header::InvalidHeaderValue,
>)
    ensures
        value is Ok <==> is_header_value(text.spec_bytes()),
        value matches Ok(v) ==> header_bytes(v) == text.spec_bytes(),
{
    reqwest::header::HeaderValue::from_str(text)
}

/// Why a run cannot be set up.
#[derive(Debug)]
pub enum SetupError {
    /// The tracker session holds a character that no header can carry;
    /// with the error that refused it.
    InvalidSessionCookie(reqwest::header::InvalidHeaderValue),
}

/// The cookie header that carries the tracker session `bb_session`. A
/// session with a character that no header can carry is refused.
pub fn session_cookie_header(bb_session: &str) -> (header: Result<
    reqwest::header::HeaderValue,
    SetupError,
>)
    ensures
        header is Ok <==> is_header_value(encode_utf8("bb_session="@ + bb_session@)),
        header matches Ok(value) ==> header_bytes(value) == encode_utf8(
            "bb_session="@ + bb_session@,
        ),
{
    let cookie = session_cookie(bb_session);
    match header_value_from_str(cookie.as_str()) {
        Ok(value) => Ok(value),
        Err(refusal) => Err(SetupError::InvalidSessionCookie(refusal)),
    }
}

} // verus!
