use tracker_updater::reconcile::RunSummary;
use tracker_updater::rutracker_api::{
    download_error_text, download_url, is_torrent_payload, session_cookie, session_cookie_header,
    torrent_file_name, SetupError,
};
use tracker_updater::session::{
    admission, summary_line, torrent_from_entry, Admission, InventoryEntry, Phase, Session,
    SessionEvent,
};
use tracker_updater::torrent::Torrent;
use tracker_updater::{Config, QbitConfig, RutrackerConfig, _log_summary};

fn entry(hash: Option<&str>, tracker: Option<&str>) -> InventoryEntry {
    InventoryEntry {
        name: Some("Name".to_string()),
        hash: hash.map(|s| s.to_string()),
        tracker: tracker.map(|s| s.to_string()),
        save_path: Some("/dl".to_string()),
        state: Some("StalledUP".to_string()),
        category: Some("films".to_string()),
        tags: Some("a, b".to_string()),
        size: Some(3 * 1024 * 1024),
    }
}

fn numbered(i: u32) -> Torrent {
    Torrent {
        name: format!("n{}", i),
        torrent_hash: format!("h{}", i),
        torrent_id: format!("{}", i),
        tracker: String::new(),
        comment: String::new(),
        state: "s".to_string(),
        category: "c".to_string(),
        tags: String::new(),
        size: 0,
        seeders: i,
        leechers: 0,
        save_path: String::new(),
    }
}

#[test]
fn only_torrents_of_the_tracker_with_a_hash_are_admitted() {
    assert_eq!(admission(&entry(Some("abc"), Some("http://bt2.rutracker.cc/ann?x"))), Admission::Accepted);
    assert_eq!(admission(&entry(Some("abc"), Some("rutracker"))), Admission::Accepted);
    assert_eq!(admission(&entry(Some("abc"), Some("http://tracker.example/ann"))), Admission::OtherTracker);
    assert_eq!(admission(&entry(Some("abc"), Some("RuTracker"))), Admission::OtherTracker);
    assert_eq!(admission(&entry(Some("abc"), Some(""))), Admission::OtherTracker);
    assert_eq!(admission(&entry(Some("abc"), None)), Admission::OtherTracker);
    assert_eq!(admission(&entry(Some(""), Some("rutracker"))), Admission::NoHash);
    assert_eq!(admission(&entry(None, Some("rutracker"))), Admission::NoHash);
    assert_eq!(admission(&entry(None, None)), Admission::NoHash);
}

#[test]
fn torrent_from_entry_reads_the_id_from_the_comment() {
    let e = entry(Some("abc"), Some("http://bt.rutracker.cc/ann"));
    let comment = Some("https://rutracker.org/forum/viewtopic.php?t=6557126".to_string());
    let t = torrent_from_entry(&e, &comment);
    assert_eq!(t.name, "Name");
    assert_eq!(t.torrent_hash, "abc");
    assert_eq!(t.torrent_id, "6557126");
    assert_eq!(t.tracker, "http://bt.rutracker.cc/ann");
    assert_eq!(t.comment, "https://rutracker.org/forum/viewtopic.php?t=6557126");
    assert_eq!(t.state, "StalledUP");
    assert_eq!(t.category, "films");
    assert_eq!(t.tags, "a, b");
    assert_eq!(t.size, 3145728);
    assert_eq!((t.seeders, t.leechers), (0, 0));
    assert_eq!(t.save_path, "/dl");
}

#[test]
fn torrent_from_entry_fills_what_is_missing() {
    let e = InventoryEntry::default();
    let t = torrent_from_entry(&e, &None);
    assert_eq!(t.name, "");
    assert_eq!(t.torrent_hash, "");
    assert_eq!(t.torrent_id, "");
    assert_eq!(t.comment, "");
    assert_eq!(t.size, 0);

    let mut e = entry(Some("abc"), None);
    e.size = Some(-1);
    assert_eq!(torrent_from_entry(&e, &None).size, u64::MAX);
    e.size = Some(i64::MIN);
    assert_eq!(torrent_from_entry(&e, &None).size, 1u64 << 63);
    e.size = Some(i64::MAX);
    assert_eq!(torrent_from_entry(&e, &None).size, i64::MAX as u64);
}

#[test]
fn a_full_run_goes_through_every_phase() {
    let mut session = Session::new(false);
    assert_eq!(session.phase(), Phase::CollectingInventory);
    session.advance(SessionEvent::InventoryCollected { torrents: 3 });
    assert_eq!(session.phase(), Phase::RefreshingStats);
    session.advance(SessionEvent::StatsRefreshed { flagged: 2 });
    assert_eq!(session.phase(), Phase::ResolvingHashes);
    session.advance(SessionEvent::HashesResolved);
    assert_eq!(session.phase(), Phase::Acting);
    assert_eq!(session.summary(), RunSummary { updated: 0, deleted: 0 });
    session.advance(SessionEvent::Acted { summary: RunSummary { updated: 1, deleted: 1 } });
    assert_eq!(session.phase(), Phase::Summarizing);
    assert_eq!(session.summary(), RunSummary { updated: 1, deleted: 1 });
    assert_eq!(session.report(), "--- 📊 Сводка: Обновлено: 1, Удалено: 1 ---");
    session.advance(SessionEvent::Reported);
    assert_eq!(session.phase(), Phase::Done);
}

#[test]
fn an_empty_inventory_goes_straight_to_the_summary() {
    let mut session = Session::new(true);
    session.advance(SessionEvent::InventoryCollected { torrents: 0 });
    assert_eq!(session.phase(), Phase::Summarizing);
    assert_eq!(session.summary(), RunSummary { updated: 0, deleted: 0 });
    assert_eq!(
        session.report(),
        "--- 📊 Сводка: Все торренты актуальны. Обновлений не найдено. ---"
    );
}

#[test]
fn no_flagged_item_goes_straight_to_the_summary() {
    let mut session = Session::new(false);
    session.advance(SessionEvent::InventoryCollected { torrents: 9 });
    session.advance(SessionEvent::StatsRefreshed { flagged: 0 });
    assert_eq!(session.phase(), Phase::Summarizing);
    assert_eq!(session.summary(), RunSummary { updated: 0, deleted: 0 });
}

#[test]
fn events_out_of_turn_change_nothing() {
    let events = [
        SessionEvent::InventoryCollected { torrents: 1 },
        SessionEvent::StatsRefreshed { flagged: 1 },
        SessionEvent::HashesResolved,
        SessionEvent::Acted { summary: RunSummary { updated: 4, deleted: 2 } },
        SessionEvent::Reported,
    ];
    let phases = [
        Phase::CollectingInventory,
        Phase::RefreshingStats,
        Phase::ResolvingHashes,
        Phase::Acting,
        Phase::Summarizing,
        Phase::Done,
    ];
    for at in 0..phases.len() {
        for (e, event) in events.iter().enumerate() {
            let mut session = Session::new(false);
            for step in events.iter().take(at) {
                session.advance(*step);
            }
            assert_eq!(session.phase(), phases[at]);
            let before = session.summary();
            session.advance(*event);
            if e == at {
                assert_eq!(session.phase(), phases[at + 1]);
            } else {
                assert_eq!(session.phase(), phases[at]);
                assert_eq!(session.summary(), before);
            }
        }
    }
}

#[test]
fn summary_lines_are_exact() {
    assert_eq!(
        summary_line(RunSummary { updated: 2, deleted: 10 }, false),
        "--- 📊 Сводка: Обновлено: 2, Удалено: 10 ---"
    );
    assert_eq!(
        summary_line(RunSummary { updated: 2, deleted: 0 }, true),
        "--- 📊 Сводка (Dry Run): Было бы обновлено: 2, Было бы удалено: 0 ---"
    );
    assert_eq!(
        summary_line(RunSummary { updated: 0, deleted: 1 }, true),
        "--- 📊 Сводка (Dry Run): Было бы обновлено: 0, Было бы удалено: 1 ---"
    );
    for dry_run in [true, false] {
        assert_eq!(
            summary_line(RunSummary { updated: 0, deleted: 0 }, dry_run),
            "--- 📊 Сводка: Все торренты актуальны. Обновлений не найдено. ---"
        );
    }
}

#[test]
fn listing_shows_the_last_six() {
    let torrents: Vec<Torrent> = (0..8).map(numbered).collect();
    let lines = _log_summary(&torrents);
    assert_eq!(lines.len(), 7);
    assert_eq!(lines[0], "--- Собранный массив (показаны последние 6 из 8 шт.) ---");
    for i in 0..6 {
        assert_eq!(lines[1 + i], torrents[2 + i].debug_string());
    }
    assert!(lines[1].starts_with("Torrent { name: \"n2\", id: \"2\", hash: \"h2\""));

    let lines = _log_summary(&torrents[..3]);
    assert_eq!(lines.len(), 4);
    assert_eq!(lines[0], "--- Собранный массив (показаны последние 3 из 3 шт.) ---");
    assert_eq!(lines[1], torrents[0].debug_string());

    let lines = _log_summary(&[]);
    assert_eq!(lines, vec!["--- Собранный массив (показаны последние 0 из 0 шт.) ---"]);

    let lines = _log_summary(&torrents[..6]);
    assert_eq!(lines.len(), 7);
    assert_eq!(lines[1], torrents[0].debug_string());
}

#[test]
fn download_addresses_and_names() {
    assert_eq!(download_url(6557126), "https://rutracker.org/forum/dl.php?t=6557126");
    assert_eq!(download_url(0), "https://rutracker.org/forum/dl.php?t=0");
    assert_eq!(torrent_file_name(6557126), "t6557126.torrent");
    assert_eq!(
        torrent_file_name(u64::MAX),
        "t18446744073709551615.torrent"
    );
    assert_eq!(session_cookie("abc-123"), "bb_session=abc-123");
    assert_eq!(session_cookie(""), "bb_session=");
    assert_eq!(
        download_error_text("403 Forbidden"),
        "Ошибка скачивания: сервер не вернул .torrent файл (статус: 403 Forbidden)."
    );
}

#[test]
fn only_a_successful_torrent_answer_is_a_payload() {
    assert!(is_torrent_payload(200, Some("application/x-bittorrent")));
    assert!(is_torrent_payload(200, Some("application/x-bittorrent; name=\"t1.torrent\"")));
    assert!(is_torrent_payload(299, Some("x application/x-bittorrent")));
    assert!(!is_torrent_payload(200, Some("text/html; charset=windows-1251")));
    assert!(!is_torrent_payload(200, Some("Application/X-Bittorrent")));
    assert!(!is_torrent_payload(200, Some("")));
    assert!(!is_torrent_payload(200, None));
    assert!(!is_torrent_payload(199, Some("application/x-bittorrent")));
    assert!(!is_torrent_payload(300, Some("application/x-bittorrent")));
    assert!(!is_torrent_payload(302, Some("application/x-bittorrent")));
    assert!(!is_torrent_payload(404, Some("application/x-bittorrent")));
    assert!(!is_torrent_payload(0, Some("application/x-bittorrent")));
    assert!(!is_torrent_payload(u16::MAX, Some("application/x-bittorrent")));
}

#[test]
fn config_holds_what_a_run_needs() {
    let config = Config {
        dry_run: true,
        qbit: QbitConfig {
            url: "http://test-url.com".to_string(),
            username: "test_user".to_string(),
            password: "test_pass".to_string(),
        },
        rutracker: RutrackerConfig { bb_session_cookie: "test_cookie_123".to_string() },
    };
    assert!(config.dry_run);
    assert_eq!(config.qbit.url, "http://test-url.com");
    assert_eq!(config.qbit.username, "test_user");
    assert_eq!(config.rutracker.bb_session_cookie, "test_cookie_123");
    assert_eq!(session_cookie(&config.rutracker.bb_session_cookie), "bb_session=test_cookie_123");
}

#[test]
fn session_cookie_header_carries_the_session() {
    let header = session_cookie_header("abc-123").unwrap();
    assert_eq!(header.as_bytes(), b"bb_session=abc-123");
    let header = session_cookie_header("").unwrap();
    assert_eq!(header.as_bytes(), b"bb_session=");
    let header = session_cookie_header("a\tb ~").unwrap();
    assert_eq!(header.as_bytes(), b"bb_session=a\tb ~");
    let header = session_cookie_header("сессия").unwrap();
    assert_eq!(header.as_bytes(), "bb_session=сессия".as_bytes());
}

#[test]
fn session_cookie_header_refuses_control_characters() {
    for session in ["abc\n", "\r", "a\u{0}b", "a\u{1f}", "a\u{7f}"] {
        match session_cookie_header(session) {
            Err(SetupError::InvalidSessionCookie(refusal)) => {
                assert_eq!(refusal.to_string(), "failed to parse header value");
            }
            Ok(_) => panic!("accepted {:?}", session),
        }
    }
    assert!(session_cookie_header("a\u{80}").is_ok());
}
