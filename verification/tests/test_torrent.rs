use tracker_updater::torrent::{debug_struct_text, Torrent};

fn full_torrent() -> Torrent {
    Torrent {
        name: "My Test Torrent".to_string(),
        torrent_hash: "aabbcc112233".to_string(),
        torrent_id: "98765".to_string(),
        tracker: "http://example-tracker.com".to_string(),
        comment: "Test comment t=98765".to_string(),
        state: "Downloading".to_string(),
        category: "Movies".to_string(),
        tags: "HD, Action".to_string(),
        size: 524288000,
        seeders: 10,
        leechers: 2,
        save_path: "/downloads/movies".to_string(),
    }
}

#[test]
fn test_torrent_display_full() {
    let torrent = full_torrent();

    let display_str = torrent.display_string();

    assert!(display_str.contains("Имя: My Test Torrent"));
    assert!(display_str.contains("ID: 98765"));
    assert!(display_str.contains("Хеш: aabbcc112233"));
    assert!(display_str.contains("Статус: Downloading"));
    assert!(display_str.contains("Категория: Movies"));
    assert!(display_str.contains("Теги: HD, Action"));
    assert!(display_str.contains("Размер: 500 MB"));
    assert!(display_str.contains("Сиды: 10 | Личи: 2"));
    assert!(display_str.contains("Трекер: http://example-tracker.com"));
    assert!(display_str.contains("Комментарий: Test comment t=98765"));
    assert!(display_str.contains("Путь: /downloads/movies"));
}

#[test]
fn test_torrent_display_minimal() {
    let torrent = Torrent {
        name: "Minimal Torrent".to_string(),
        torrent_hash: "min456".to_string(),
        torrent_id: "123".to_string(),
        tracker: "".to_string(),
        comment: "".to_string(),
        state: "Paused".to_string(),
        tags: "".to_string(),
        category: "Music".to_string(),
        size: 0,
        seeders: 0,
        leechers: 0,
        save_path: "".to_string(),
    };

    let display_str = torrent.display_string();

    assert!(display_str.contains("Имя: Minimal Torrent"));
    assert!(display_str.contains("Статус: Paused"));
    assert!(display_str.contains("Размер: 0 MB"));

    assert!(!display_str.contains("Трекер:"));
    assert!(!display_str.contains("Комментарий:"));
    assert!(!display_str.contains("Путь:"));
    assert!(!display_str.contains("Теги:"));
}

#[test]
fn test_torrent_debug_compact() {
    let torrent = full_torrent();

    let debug_str = torrent.debug_string();

    println!("Debug output:\n{}", debug_str);

    assert!(
        !debug_str.contains('\n'),
        "Вывод Debug не должен содержать переносов строк"
    );

    assert!(debug_str.starts_with("Torrent {"));
    assert!(debug_str.ends_with("}"));

    assert!(debug_str.contains("name: \"My Test Torrent\""));
    assert!(debug_str.contains("id: \"98765\""));
    assert!(debug_str.contains("hash: \"aabbcc112233\""));
    assert!(debug_str.contains("state: \"Downloading\""));

    assert!(debug_str.contains("peers: \"10/2\""));
    assert!(debug_str.contains("size_mb: 500"));
    assert!(debug_str.contains("tags: \"HD, Action\""));
    assert!(debug_str.contains("category: \"Movies\""));
}

#[test]
fn display_string_is_exact() {
    let torrent = full_torrent();
    assert_eq!(
        torrent.display_string(),
        "Имя: My Test Torrent\n  - ID: 98765\n  - Хеш: aabbcc112233\n  - Статус: Downloading\n  - Категория: Movies\n  - Размер: 500 MB\n  - Сиды: 10 | Личи: 2\n  - Теги: HD, Action\n  - Трекер: http://example-tracker.com\n  - Путь: /downloads/movies\n  - Комментарий: Test comment t=98765"
    );
}

#[test]
fn debug_string_is_exact_and_escapes() {
    let mut torrent = full_torrent();
    torrent.name = "a \"b\"\n\\".to_string();
    torrent.tags = String::new();
    torrent.size = u64::MAX;
    torrent.seeders = u32::MAX;
    assert_eq!(
        torrent.debug_string(),
        "Torrent { name: \"a \\\"b\\\"\\n\\\\\", id: \"98765\", hash: \"aabbcc112233\", state: \"Downloading\", peers: \"4294967295/2\", size_mb: 17592186044415, category: \"Movies\", tracker: \"http://example-tracker.com\", comment: \"Test comment t=98765\", save_path: \"/downloads/movies\" }"
    );
}

#[test]
fn debug_struct_text_without_fields_is_the_name() {
    assert_eq!(debug_struct_text("Unit", &vec![]), "Unit");
    assert_eq!(
        debug_struct_text("P", &vec![("x".to_string(), "1".to_string())]),
        "P { x: 1 }"
    );
    assert_eq!(
        debug_struct_text(
            "P",
            &vec![("x".to_string(), "1".to_string()), ("y".to_string(), "2".to_string())]
        ),
        "P { x: 1, y: 2 }"
    );
}

#[test]
fn clone_keeps_every_field() {
    let torrent = full_torrent();
    let copy = torrent.clone();
    assert_eq!(copy.display_string(), torrent.display_string());
    assert_eq!(copy.debug_string(), torrent.debug_string());
}
