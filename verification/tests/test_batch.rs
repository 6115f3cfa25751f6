use tracker_updater::batch::{
    effective_limit, find_entry_from, needs_limit, BatchOutcome, BatchQuery, BatchReply,
    DEFAULT_LIMIT, MAX_ATTEMPTS_PER_CHUNK,
};
use tracker_updater::rutracker_api::{
    find_entry, holds_text, peer_stats_keys, peer_stats_query, peer_stats_url, refresh_peer_stats,
    tor_hash_query, tor_hash_url, PeerStats,
};
use tracker_updater::torrent::Torrent;

fn torrent(hash: &str, id: &str) -> Torrent {
    Torrent {
        name: format!("torrent {}", hash),
        torrent_hash: hash.to_string(),
        torrent_id: id.to_string(),
        tracker: "http://bt.rutracker.cc/ann".to_string(),
        comment: format!("https://rutracker.org/forum/viewtopic.php?t={}", id),
        state: "Uploading".to_string(),
        category: "cat".to_string(),
        tags: "tag".to_string(),
        size: 1,
        seeders: 0,
        leechers: 0,
        save_path: "/data".to_string(),
    }
}

fn keys(n: usize) -> Vec<String> {
    (0..n).map(|i| format!("K{}", i)).collect()
}

fn stats(seeders: u32, leechers: u32) -> PeerStats {
    PeerStats { seeders, leechers, last_seen: 1700000000 }
}

fn answer_all(pending: &Vec<String>) -> BatchReply<PeerStats> {
    BatchReply::Success(pending.iter().map(|k| (k.clone(), Some(stats(1, 2)))).collect())
}

fn requests_on_success_path(n: usize, limit: usize) -> usize {
    let mut query: BatchQuery<PeerStats> = BatchQuery::new(keys(n), limit);
    let mut requests = 0;
    let mut asked: Vec<String> = Vec::new();
    while !query.is_finished() {
        let pending = query.pending().clone();
        assert!(!pending.is_empty());
        assert!(pending.len() <= limit);
        asked.extend(pending.iter().cloned());
        requests += 1;
        query.receive(answer_all(&pending));
    }
    assert_eq!(asked, keys(n));
    let outcome = query.into_outcome();
    assert_eq!(outcome.values.len(), n);
    assert!(outcome.rejected.is_empty());
    assert!(outcome.unknown.is_empty());
    assert_eq!(outcome.told, (0..n).map(|i| (i, i)).collect::<Vec<_>>());
    requests
}

#[test]
fn success_path_makes_one_request_per_chunk() {
    assert_eq!(requests_on_success_path(0, 20), 0);
    assert_eq!(requests_on_success_path(1, 20), 1);
    assert_eq!(requests_on_success_path(20, 20), 1);
    assert_eq!(requests_on_success_path(21, 20), 2);
    assert_eq!(requests_on_success_path(40, 20), 2);
    assert_eq!(requests_on_success_path(45, 20), 3);
    assert_eq!(requests_on_success_path(7, 1), 7);
    assert_eq!(requests_on_success_path(7, 3), 3);
    assert_eq!(requests_on_success_path(3, usize::MAX), 1);
}

#[test]
fn empty_key_set_needs_no_request() {
    let query: BatchQuery<String> = tor_hash_query(Vec::new(), 20);
    assert!(query.is_finished());
    assert!(query.pending().is_empty());
    let outcome = query.into_outcome();
    assert!(outcome.values.is_empty());
    assert!(outcome.rejected.is_empty());
    assert!(outcome.told.is_empty());
    assert!(outcome.unknown.is_empty());

    let query: BatchQuery<String> = tor_hash_query(Vec::new(), 0);
    assert!(query.is_finished());
}

#[test]
fn only_a_query_with_keys_needs_the_limit() {
    assert!(!needs_limit(&Vec::new()));
    assert!(needs_limit(&vec!["".to_string()]));
    assert!(needs_limit(&keys(3)));
    assert!(!needs_limit(&peer_stats_keys(&Vec::new())));
    let torrents = vec![torrent("H1", "101"), torrent("H2", "")];
    assert_eq!(peer_stats_keys(&torrents), vec!["H1", "H2"]);
    assert!(needs_limit(&peer_stats_keys(&torrents)));
}

#[test]
fn flagged_ids_come_in_the_order_of_detection() {
    let mut torrents = vec![torrent("H1", "1"), torrent("H2", "2")];
    let mut query = peer_stats_query(&torrents, 20);
    query.receive(BatchReply::Error("Invalid hash: H2".to_string()));
    assert_eq!(query.rejected(), &vec!["H2".to_string()]);
    assert_eq!(query.pending(), &vec!["H1".to_string()]);
    query.receive(BatchReply::Success(vec![("H1".to_string(), None)]));
    assert!(query.is_finished());
    let outcome = query.into_outcome();
    assert_eq!(outcome.unknown, vec![1, 0]);
    assert_eq!(outcome.told, vec![(0, 0)]);
    let flagged = refresh_peer_stats(&mut torrents, &outcome);
    assert_eq!(flagged, vec!["2", "1"]);
    assert_eq!((torrents[0].seeders, torrents[0].leechers), (0, 0));
    assert_eq!((torrents[1].seeders, torrents[1].leechers), (0, 0));
}

#[test]
fn detection_order_runs_chunk_by_chunk() {
    // Chunks of three: [H0 H1 H2] [H3 H4 H5] [H6].
    let mut torrents: Vec<Torrent> =
        (0..7).map(|i| torrent(&format!("H{}", i), &format!("{}", 100 + i))).collect();
    torrents[4].torrent_id = String::new();
    for t in torrents.iter_mut() {
        t.seeders = 50;
        t.leechers = 60;
    }
    let mut query = peer_stats_query(&torrents, 3);
    // First chunk: H2 is rejected, then H0 has no record and H1 has peers.
    query.receive(BatchReply::Error("Invalid hash: H2".to_string()));
    query.receive(BatchReply::Success(vec![
        ("H1".to_string(), Some(stats(3, 4))),
        ("H0".to_string(), None),
        ("H6".to_string(), Some(stats(9, 9))),
    ]));
    // Second chunk: H5 and H3 are rejected, then H4 has no record.
    assert_eq!(query.pending(), &vec!["H3".to_string(), "H4".to_string(), "H5".to_string()]);
    query.receive(BatchReply::Error("Invalid hash: H5".to_string()));
    query.receive(BatchReply::Error("Invalid hash: H3".to_string()));
    query.receive(BatchReply::Success(vec![("H4".to_string(), None)]));
    // Third chunk: the request fails.
    assert_eq!(query.pending(), &vec!["H6".to_string()]);
    query.receive(BatchReply::Failed);
    assert!(query.is_finished());

    let outcome = query.into_outcome();
    assert_eq!(outcome.rejected, vec!["H2", "H5", "H3"]);
    assert_eq!(outcome.unknown, vec![2, 0, 5, 3, 4]);
    assert_eq!(outcome.told, vec![(0, 1), (1, 0), (4, 3)]);
    let flagged = refresh_peer_stats(&mut torrents, &outcome);
    assert_eq!(flagged, vec!["102", "100", "105", "103"]);
    assert!(flagged.iter().all(|id| !id.is_empty()));
    let counters: Vec<(u32, u32)> = torrents.iter().map(|t| (t.seeders, t.leechers)).collect();
    assert_eq!(
        counters,
        vec![(50, 60), (3, 4), (50, 60), (50, 60), (50, 60), (50, 60), (50, 60)]
    );
}

#[test]
fn torrents_with_one_hash_are_told_apart_by_their_place() {
    let mut torrents = vec![torrent("H", "1"), torrent("H", "2"), torrent("G", "3")];
    let mut query = peer_stats_query(&torrents, 20);
    query.receive(BatchReply::Success(vec![
        ("H".to_string(), None),
        ("G".to_string(), Some(stats(1, 2))),
    ]));
    let outcome = query.into_outcome();
    assert_eq!(outcome.unknown, vec![0, 1]);
    let flagged = refresh_peer_stats(&mut torrents, &outcome);
    assert_eq!(flagged, vec!["1", "2"]);

    let mut torrents = vec![torrent("H", "1"), torrent("H", "2")];
    let mut query = peer_stats_query(&torrents, 20);
    query.receive(BatchReply::Error("Invalid hash: H".to_string()));
    query.receive(BatchReply::Success(vec![("H".to_string(), Some(stats(5, 6)))]));
    let outcome = query.into_outcome();
    assert_eq!(outcome.unknown, vec![0]);
    assert_eq!(outcome.told, vec![(1, 0)]);
    let flagged = refresh_peer_stats(&mut torrents, &outcome);
    assert_eq!(flagged, vec!["1"]);
    assert_eq!((torrents[0].seeders, torrents[0].leechers), (0, 0));
    assert_eq!((torrents[1].seeders, torrents[1].leechers), (5, 6));
}

#[test]
fn counters_come_from_the_reply_to_the_torrents_own_chunk() {
    let mut torrents = vec![torrent("H0", "100"), torrent("H1", "101")];
    let mut query = peer_stats_query(&torrents, 1);
    query.receive(BatchReply::Failed);
    query.receive(BatchReply::Success(vec![
        ("H0".to_string(), Some(stats(7, 7))),
        ("H1".to_string(), Some(stats(8, 8))),
    ]));
    let outcome = query.into_outcome();
    assert_eq!(outcome.told, vec![(1, 1)]);
    let flagged = refresh_peer_stats(&mut torrents, &outcome);
    assert!(flagged.is_empty());
    assert_eq!((torrents[0].seeders, torrents[0].leechers), (0, 0));
    assert_eq!((torrents[1].seeders, torrents[1].leechers), (8, 8));
}

#[test]
fn invalid_hash_is_dropped_and_the_rest_is_asked_again() {
    let mut torrents = vec![torrent("H1", "101"), torrent("H2", "102"), torrent("H3", "103")];
    let mut query = peer_stats_query(&torrents, 20);
    assert_eq!(query.pending(), &vec!["H1".to_string(), "H2".to_string(), "H3".to_string()]);
    assert_eq!(query.attempts(), 0);

    query.receive(BatchReply::Error("Invalid hash: H2".to_string()));

    assert!(!query.is_finished());
    assert_eq!(query.attempts(), 1);
    assert_eq!(query.pending(), &vec!["H1".to_string(), "H3".to_string()]);

    query.receive(BatchReply::Success(vec![
        ("H1".to_string(), Some(stats(11, 3))),
        ("H3".to_string(), Some(stats(0, 5))),
    ]));
    assert!(query.is_finished());

    let outcome = query.into_outcome();
    assert_eq!(outcome.rejected, vec!["H2".to_string()]);
    assert_eq!(outcome.unknown, vec![1]);
    assert_eq!(outcome.told, vec![(0, 0), (2, 1)]);
    let flagged = refresh_peer_stats(&mut torrents, &outcome);
    assert_eq!(flagged, vec!["102".to_string()]);
    assert_eq!((torrents[0].seeders, torrents[0].leechers), (11, 3));
    assert_eq!((torrents[1].seeders, torrents[1].leechers), (0, 0));
    assert_eq!((torrents[2].seeders, torrents[2].leechers), (0, 5));
}

#[test]
fn chunk_is_abandoned_after_the_ceiling_of_attempts() {
    assert_eq!(MAX_ATTEMPTS_PER_CHUNK, 5);
    let mut query: BatchQuery<PeerStats> = BatchQuery::new(keys(10), 7);
    let mut requests = 0;
    while query.pending().contains(&"K6".to_string()) {
        requests += 1;
        assert_eq!(query.pending().len(), 7 - (requests - 1));
        assert_eq!(query.attempts() as usize, requests - 1);
        let bad = query.pending()[0].clone();
        query.receive(BatchReply::Error(format!("Invalid hash: {}", bad)));
    }
    assert_eq!(requests, 5);
    assert!(!query.is_finished());
    assert_eq!(query.attempts(), 0);
    assert_eq!(query.pending(), &vec!["K7".to_string(), "K8".to_string(), "K9".to_string()]);

    let pending = query.pending().clone();
    query.receive(answer_all(&pending));
    assert!(query.is_finished());
    let outcome = query.into_outcome();
    assert_eq!(outcome.rejected, keys(5));
    assert_eq!(outcome.unknown, vec![0, 1, 2, 3, 4]);
    assert_eq!(outcome.values.len(), 3);
    assert!(find_entry(&outcome.values, "K5").is_none());
    assert!(find_entry(&outcome.values, "K6").is_none());
}

#[test]
fn no_reply_sequence_keeps_a_query_going_for_ever() {
    let mut query: BatchQuery<PeerStats> = BatchQuery::new(keys(23), 10);
    let mut requests = 0;
    while !query.is_finished() {
        requests += 1;
        assert!(requests <= 15);
        let bad = query.pending().last().unwrap().clone();
        query.receive(BatchReply::Error(format!("code 3. Invalid hash: {}  ", bad)));
    }
    assert_eq!(requests, 5 + 5 + 3);
}

#[test]
fn chunk_ends_when_every_key_is_rejected() {
    let mut query: BatchQuery<PeerStats> = BatchQuery::new(keys(3), 2);
    query.receive(BatchReply::Error("Invalid hash: K1".to_string()));
    assert_eq!(query.pending(), &vec!["K0".to_string()]);
    query.receive(BatchReply::Error("Invalid hash: K0".to_string()));
    assert_eq!(query.pending(), &vec!["K2".to_string()]);
    assert_eq!(query.attempts(), 0);
    query.receive(BatchReply::Error("Invalid hash: K2".to_string()));
    assert!(query.is_finished());
    let outcome = query.into_outcome();
    assert_eq!(outcome.rejected, vec!["K1", "K0", "K2"]);
    assert_eq!(outcome.unknown, vec![1, 0, 2]);
    assert!(outcome.told.is_empty());
}

#[test]
fn failures_that_name_no_pending_key_abandon_the_chunk() {
    let replies: Vec<BatchReply<PeerStats>> = vec![
        BatchReply::Failed,
        BatchReply::Error("Server is busy".to_string()),
        BatchReply::Error("Invalid hash: ZZZ".to_string()),
        BatchReply::Error("Invalid hash: k0".to_string()),
        BatchReply::Error("Invalid hash:K0".to_string()),
    ];
    for reply in replies {
        let mut query: BatchQuery<PeerStats> = BatchQuery::new(keys(3), 2);
        query.receive(reply);
        assert_eq!(query.pending(), &vec!["K2".to_string()]);
        assert_eq!(query.attempts(), 0);
        let pending = query.pending().clone();
        query.receive(answer_all(&pending));
        assert!(query.is_finished());
        let outcome = query.into_outcome();
        assert!(outcome.rejected.is_empty());
        assert_eq!(outcome.values.len(), 1);
        assert_eq!(outcome.values[0].0, "K2");
    }
}

#[test]
fn rejection_strikes_the_first_of_equal_keys() {
    let mut query: BatchQuery<PeerStats> =
        BatchQuery::new(vec!["A".to_string(), "B".to_string(), "A".to_string()], 5);
    query.receive(BatchReply::Error("Invalid hash: A".to_string()));
    assert_eq!(query.pending(), &vec!["B".to_string(), "A".to_string()]);
    query.receive(BatchReply::Error("Invalid hash: A".to_string()));
    assert_eq!(query.pending(), &vec!["B".to_string()]);
    assert_eq!(query.attempts(), 2);
}

#[test]
fn replies_after_the_end_change_nothing() {
    let mut query: BatchQuery<PeerStats> = BatchQuery::new(keys(1), 1);
    query.receive(BatchReply::Failed);
    assert!(query.is_finished());
    query.receive(BatchReply::Success(vec![("K0".to_string(), Some(stats(1, 1)))]));
    query.receive(BatchReply::Error("Invalid hash: K0".to_string()));
    assert!(query.is_finished());
    let outcome = query.into_outcome();
    assert!(outcome.values.is_empty());
    assert!(outcome.rejected.is_empty());
    assert!(outcome.told.is_empty());
    assert!(outcome.unknown.is_empty());
}

#[test]
fn effective_limit_falls_back_to_the_default() {
    assert_eq!(DEFAULT_LIMIT, 20);
    assert_eq!(effective_limit(None), 20);
    assert_eq!(effective_limit(Some(50)), 50);
    assert_eq!(effective_limit(Some(0)), 0);
    assert_eq!(effective_limit(Some(u32::MAX)), u32::MAX as usize);
}

#[test]
fn request_urls_join_the_keys_with_commas() {
    assert_eq!(
        peer_stats_url(&vec!["AA".to_string(), "BB".to_string(), "CC".to_string()]),
        "https://api.rutracker.cc/v1/get_peer_stats?by=hash&val=AA,BB,CC"
    );
    assert_eq!(
        peer_stats_url(&vec!["AA".to_string()]),
        "https://api.rutracker.cc/v1/get_peer_stats?by=hash&val=AA"
    );
    assert_eq!(
        tor_hash_url(&vec!["1".to_string(), "2142".to_string()]),
        "https://api.rutracker.cc/v1/get_tor_hash?by=topic_id&val=1,2142"
    );
    assert_eq!(
        tor_hash_url(&Vec::new()),
        "https://api.rutracker.cc/v1/get_tor_hash?by=topic_id&val="
    );
}

#[test]
fn later_entries_supersede_earlier_ones() {
    let entries = vec![
        ("a".to_string(), Some(1)),
        ("b".to_string(), None),
        ("a".to_string(), Some(3)),
    ];
    assert_eq!(find_entry(&entries, "a"), Some(&Some(3)));
    assert_eq!(find_entry(&entries, "b"), Some(&None));
    assert_eq!(find_entry(&entries, "c"), None);
    assert_eq!(find_entry(&entries, "A"), None);
    let none: Vec<(String, Option<i32>)> = Vec::new();
    assert_eq!(find_entry(&none, "a"), None);

    assert_eq!(find_entry_from(&entries, 0, "a"), Some(2));
    assert_eq!(find_entry_from(&entries, 2, "a"), Some(2));
    assert_eq!(find_entry_from(&entries, 3, "a"), None);
    assert_eq!(find_entry_from(&entries, 0, "b"), Some(1));
    assert_eq!(find_entry_from(&entries, 2, "b"), None);
    assert_eq!(find_entry_from(&entries, 0, "c"), None);
    assert_eq!(find_entry_from(&none, 0, "a"), None);
}

#[test]
fn holds_text_compares_whole_strings() {
    let items = vec!["abc".to_string(), "".to_string()];
    assert!(holds_text(&items, "abc"));
    assert!(holds_text(&items, ""));
    assert!(!holds_text(&items, "ab"));
    assert!(!holds_text(&Vec::new(), ""));
}

#[test]
fn refresh_goes_by_the_places_that_the_query_noted() {
    let mut torrents = vec![
        torrent("H1", "101"),
        torrent("H2", ""),
        torrent("H3", "103"),
        torrent("H4", "104"),
    ];
    let outcome = BatchOutcome {
        values: vec![
            ("H1".to_string(), Some(stats(7, 8))),
            ("H3".to_string(), None),
            ("H4".to_string(), Some(stats(1, 1))),
        ],
        rejected: vec!["H2".to_string()],
        told: vec![(0, 0), (2, 1), (3, 9), (9, 2)],
        unknown: vec![3, 1, 9, 2, 3],
    };
    let flagged = refresh_peer_stats(&mut torrents, &outcome);
    assert_eq!(flagged, vec!["104", "103", "104"]);
    assert_eq!((torrents[0].seeders, torrents[0].leechers), (7, 8));
    for t in &torrents[1..] {
        assert_eq!((t.seeders, t.leechers), (0, 0));
    }
    assert_eq!(torrents[0].torrent_id, "101");
    assert_eq!(torrents[0].save_path, "/data");
}

#[test]
fn refresh_leaves_unanswered_torrents_alone() {
    let mut torrents = vec![torrent("H1", "101"), torrent("H2", "102")];
    torrents[1].seeders = 9;
    torrents[1].leechers = 4;
    let outcome: BatchOutcome<PeerStats> = BatchOutcome {
        values: Vec::new(),
        rejected: Vec::new(),
        told: Vec::new(),
        unknown: Vec::new(),
    };
    let flagged = refresh_peer_stats(&mut torrents, &outcome);
    assert!(flagged.is_empty());
    assert_eq!((torrents[1].seeders, torrents[1].leechers), (9, 4));
}
