use clipboard_ultra::apps::{
    add_excluded_app, dedup_apps, exe_name_of, get_frontmost_app_bundle_id,
    get_running_apps_mac, get_running_apps_windows, is_excluded, parse_app_list,
    remove_excluded_app, resolve_app_name_mac, resolve_app_name_windows, sort_apps_by_name,
};
use clipboard_ultra::commands;
use clipboard_ultra::db::Database;
use clipboard_ultra::db::items::hash_text;
use clipboard_ultra::model::{ExportItem, RunningApp};
use clipboard_ultra::monitor::{
    blob_file_names, embed_image, hash_bytes, image_to_embed, image_to_restore, paste_item_at,
    set_blob_path, thumbnail_size, MonitorState, PasteSource,
};

#[test]
fn watcher_records_new_text_once() {
    let mut m = MonitorState::new();
    assert_eq!(m.observe_text("  hello \n"), Some("hello".to_string()));
    assert_eq!(m.last_hash, hash_text("hello"));
    assert_eq!(m.observe_text("hello"), None);
    assert_eq!(m.observe_text("   "), None);
    assert_eq!(m.last_hash, hash_text("hello"));
    assert_eq!(m.observe_text("world"), Some("world".to_string()));
}

#[test]
fn watcher_does_not_record_what_an_excluded_app_copied() {
    let mut m = MonitorState::new();
    m.remember_text(" secret ");
    assert_eq!(m.observe_text("secret"), None);
    m.remember_image(&[1, 2, 3]);
    assert_eq!(m.observe_image(&[1, 2, 3]), None);
}

#[test]
fn watcher_stores_new_images_by_hash() {
    let mut m = MonitorState::new();
    let h = hash_bytes(b"abc");
    assert_eq!(h, "ba7816bf8f01cfea414140de5dae2223b00361a396177a9cb410ff61f20015ad");
    assert_eq!(m.observe_image(b"abc"), Some(h.clone()));
    assert_eq!(m.observe_image(b"abc"), None);
    assert_eq!(m.observe_image(&[]), None);
    assert_eq!(m.last_hash, h);
}

#[test]
fn thumbnails_are_two_hundred_wide() {
    assert_eq!(thumbnail_size(400, 300), Some((200, 150)));
    assert_eq!(thumbnail_size(1000, 333), Some((200, 66)));
    assert_eq!(thumbnail_size(200, 100), None);
}

#[test]
fn blob_names() {
    let (a, b) = blob_file_names("abc-123");
    assert_eq!(a, "abc-123.png");
    assert_eq!(b, "abc-123_thumb.png");
}

#[test]
fn paste_text_and_image_items() {
    let mut db = Database::new_at(0);
    db.insert_text_at("hi", None, None, 1).unwrap();
    let t = db.get_recent(1, 0).unwrap()[0].id;
    match paste_item_at(&mut db, t, 5).unwrap() {
        PasteSource::Text(s) => assert_eq!(s, "hi"),
        PasteSource::ImageFile(_) => panic!("expected text"),
    }
    assert_eq!(db.get_item_by_id(t).unwrap().unwrap().use_count, 1);
    db.insert_image_at("img.png", "h", None, None, 6).unwrap();
    let i = db.get_recent(1, 0).unwrap()[0].id;
    match paste_item_at(&mut db, i, 7).unwrap() {
        PasteSource::ImageFile(f) => assert_eq!(f, "img.png"),
        PasteSource::Text(_) => panic!("expected image"),
    }
    assert_eq!(paste_item_at(&mut db, 999, 8).err(), Some("Item not found".to_string()));
}

fn export_item(content_type: &str) -> ExportItem {
    ExportItem {
        content_type: content_type.to_string(),
        content: "[图片]".to_string(),
        content_hash: "h".to_string(),
        tag: None,
        created_at: 0,
        updated_at: 0,
        is_pinned: false,
        use_count: 0,
        last_used_at: None,
        source_app: None,
        source_app_name: None,
        image_base64: None,
        boards: vec![],
        blob_path: Some("x.png".to_string()),
    }
}

#[test]
fn images_travel_base64_encoded() {
    let mut it = export_item("image");
    assert_eq!(image_to_embed(&it), Some("x.png".to_string()));
    embed_image(&mut it, b"hello");
    assert_eq!(it.image_base64.as_deref(), Some("aGVsbG8="));
    assert_eq!(image_to_restore(&it), Some(b"hello".to_vec()));
    set_blob_path(&mut it, "y.png");
    assert_eq!(it.blob_path.as_deref(), Some("y.png"));
    let text = export_item("text");
    assert_eq!(image_to_embed(&text), None);
    let mut bad = export_item("image");
    bad.image_base64 = Some("!!!".to_string());
    assert_eq!(image_to_restore(&bad), None);
}

#[test]
fn frontmost_bundle_id_from_lsappinfo() {
    let info = "\"CFBundleIdentifier\"=\"com.apple.Safari\"\n";
    assert_eq!(
        get_frontmost_app_bundle_id("ASN:0x0-0x1d01d:\n", info),
        Some("com.apple.Safari".to_string())
    );
    assert_eq!(get_frontmost_app_bundle_id("  \n", info), None);
    assert_eq!(get_frontmost_app_bundle_id("ASN:0x0-0x1:", "nothing"), None);
}

#[test]
fn app_display_names() {
    assert_eq!(
        resolve_app_name_mac("com.google.Chrome", Some("\"LSDisplayName\"=\"Google Chrome\"")),
        "Google Chrome"
    );
    assert_eq!(resolve_app_name_mac("com.google.Chrome", None), "Chrome");
    assert_eq!(resolve_app_name_mac("com.google.Chrome", Some("\"LSDisplayName\"=\"\"")), "Chrome");
    assert_eq!(resolve_app_name_windows("notepad.exe"), "notepad");
    assert_eq!(resolve_app_name_windows("tool"), "tool");
    assert_eq!(exe_name_of("C:\\Program Files\\App\\Code.EXE"), "code.exe");
}

const LIST: &str = "\
3 apps
 1) \"Finder\" ASN:0x0-0x1:
    bundleID=\"com.apple.finder\"
    type=\"Foreground\"
 2) \"Dock\" ASN:0x0-0x2:
    bundleID=\"com.apple.dock\"
    type=\"UIElement\"
 3) \"clipboard\" ASN:0x0-0x3:
    bundleID=\"com.clipboard-ultra.app\"
    type=\"Foreground\"
 4) \"abc\" ASN:0x0-0x4:
    \"CFBundleIdentifier\"=\"com.x.abc\"
    type=\"Foreground\"
";

#[test]
fn running_apps_on_macos() {
    let listed = parse_app_list(LIST);
    let ids: Vec<String> = listed.iter().map(|a| a.bundle_id.clone()).collect();
    assert_eq!(ids, vec!["com.apple.finder", "com.clipboard-ultra.app", "com.x.abc"]);
    let apps = get_running_apps_mac(LIST);
    let names: Vec<String> = apps.iter().map(|a| a.name.clone()).collect();
    assert_eq!(names, vec!["abc", "Finder"]);
}

#[test]
fn running_apps_on_windows() {
    let raw = vec![
        ("code.exe".to_string(), "main.rs - Code".to_string()),
        ("chrome.exe".to_string(), "Google".to_string()),
        ("code.exe".to_string(), "other".to_string()),
        ("clipboard-ultra.exe".to_string(), "me".to_string()),
    ];
    let apps = get_running_apps_windows(&raw);
    let ids: Vec<String> = apps.iter().map(|a| a.bundle_id.clone()).collect();
    assert_eq!(ids, vec!["chrome.exe", "code.exe"]);
}

fn app(b: &str, n: &str) -> RunningApp {
    RunningApp { bundle_id: b.to_string(), name: n.to_string() }
}

#[test]
fn sort_and_dedup_apps() {
    let sorted = sort_apps_by_name(vec![app("b", "beta"), app("a", "Alpha"), app("c", "alpha")]);
    let ids: Vec<String> = sorted.iter().map(|a| a.bundle_id.clone()).collect();
    assert_eq!(ids, vec!["a", "c", "b"]);
    let d = dedup_apps(vec![app("x", "1"), app("x", "2"), app("y", "3"), app("x", "4")]);
    let names: Vec<String> = d.iter().map(|a| a.name.clone()).collect();
    assert_eq!(names, vec!["1", "3"]);
}

#[test]
fn excluded_list_add_remove_check() {
    let mut list: Vec<String> = vec![];
    add_excluded_app(&mut list, "com.a");
    add_excluded_app(&mut list, "com.a");
    add_excluded_app(&mut list, "Code.exe");
    assert_eq!(list, vec!["com.a".to_string(), "Code.exe".to_string()]);
    assert!(is_excluded(&list, "com.a", false));
    assert!(!is_excluded(&list, "code.exe", false));
    assert!(is_excluded(&list, "code.exe", true));
    remove_excluded_app(&mut list, "com.a");
    assert_eq!(list, vec!["Code.exe".to_string()]);
    assert!(!is_excluded(&list, "com.a", false));
}

#[test]
fn settings_commands_defaults_and_round_trips() {
    let mut db = Database::new_at(0);
    assert_eq!(commands::get_max_items(&db), Ok(1000));
    assert_eq!(commands::get_default_expire_days(&db), Ok(0));
    assert_eq!(commands::get_content_type_expire_days(&db, "image"), Ok(0));
    assert_eq!(commands::get_shortcut(&db), Ok("CommandOrControl+Shift+V".to_string()));
    commands::set_max_items(&mut db, 250).unwrap();
    commands::set_default_expire_days(&mut db, 30).unwrap();
    commands::set_content_type_expire_days(&mut db, "image", 7).unwrap();
    commands::set_app_config(&mut db, "shortcut", "Alt+V").unwrap();
    assert_eq!(commands::get_max_items(&db), Ok(250));
    assert_eq!(commands::get_default_expire_days(&db), Ok(30));
    assert_eq!(commands::get_content_type_expire_days(&db, "image"), Ok(7));
    assert_eq!(commands::get_shortcut(&db), Ok("Alt+V".to_string()));
    assert_eq!(commands::get_app_config(&db, "expire_days_image"), Ok(Some("7".to_string())));
    assert_eq!(commands::get_app_config(&db, "missing"), Ok(None));
    commands::set_app_config(&mut db, "max_items", "lots").unwrap();
    assert_eq!(commands::get_max_items(&db), Ok(1000));
}

#[test]
fn list_commands_use_their_default_limits() {
    let mut db = Database::new_at(0);
    for i in 0..60 {
        db.insert_text_at(&format!("n{}", i), None, None, i).unwrap();
    }
    assert_eq!(commands::get_clipboard_items(&db, None, None).unwrap().len(), 50);
    assert_eq!(commands::get_clipboard_items(&db, Some(5), Some(58)).unwrap().len(), 2);
    assert_eq!(commands::get_items_by_tag(&db, "none", None).unwrap().len(), 0);
    let r = commands::add_tag_rule(&mut db, "n", "", "#000", 0, None).unwrap();
    assert_eq!(r.expire_days, 0);
}

#[test]
fn excluded_apps_are_stored_with_their_names() {
    let mut db = Database::new_at(0);
    let mut list = commands::load_excluded_apps(&db);
    assert!(list.is_empty());
    commands::add_excluded_app(&mut db, &mut list, "com.b", "App B").unwrap();
    commands::add_excluded_app(&mut db, &mut list, "com.a", "App A").unwrap();
    commands::add_excluded_app(&mut db, &mut list, "com.a", "Renamed").unwrap();
    assert_eq!(list, vec!["com.b".to_string(), "com.a".to_string()]);
    assert_eq!(
        commands::get_app_config(&db, "excluded_apps"),
        Ok(Some("[\"com.b\",\"com.a\"]".to_string()))
    );
    assert_eq!(
        commands::get_app_config(&db, "excluded_apps_names"),
        Ok(Some("{\"com.a\":\"Renamed\",\"com.b\":\"App B\"}".to_string()))
    );
    assert_eq!(commands::load_excluded_apps(&db), list);
    commands::remove_excluded_app(&mut db, &mut list, "com.b").unwrap();
    assert_eq!(list, vec!["com.a".to_string()]);
    assert_eq!(
        commands::get_excluded_apps_names(&db).unwrap(),
        vec![("com.a".to_string(), "Renamed".to_string())]
    );
}

#[test]
fn unreadable_excluded_settings_read_as_empty() {
    let mut db = Database::new_at(0);
    commands::set_app_config(&mut db, "excluded_apps", "not json").unwrap();
    commands::set_app_config(&mut db, "excluded_apps_names", "[1]").unwrap();
    assert!(commands::load_excluded_apps(&db).is_empty());
    assert!(commands::get_excluded_apps_names(&db).unwrap().is_empty());
}

#[test]
fn polls_in_excluded_apps_record_nothing() {
    let mut m = MonitorState::new();
    assert_eq!(m.poll_text("secret", true), None);
    assert_eq!(m.last_hash, hash_text("secret"));
    assert_eq!(m.poll_text("secret", false), None);
    assert_eq!(m.poll_text("public", false), Some("public".to_string()));
    assert_eq!(m.poll_image(b"img", true), None);
    assert_eq!(m.poll_image(b"img", false), None);
    assert_eq!(m.poll_image(b"other", false), Some(hash_bytes(b"other")));
}

const LIST_DUPLICATE: &str = "\
 1) \"Alpha\" ASN:0x0-0x1:
    bundleID=\"b1\"
    type=\"Foreground\"
 2) \"Beta\" ASN:0x0-0x2:
    bundleID=\"b2\"
    type=\"Foreground\"
 3) \"Gamma\" ASN:0x0-0x3:
    bundleID=\"b1\"
    type=\"Foreground\"
";

#[test]
fn running_apps_on_macos_list_each_bundle_once() {
    let apps = get_running_apps_mac(LIST_DUPLICATE);
    let names: Vec<String> = apps.iter().map(|a| a.name.clone()).collect();
    assert_eq!(names, vec!["Alpha", "Beta"]);
}

#[test]
fn excluded_names_keep_entries_that_are_not_strings() {
    let mut db = Database::new_at(0);
    commands::set_app_config(&mut db, "excluded_apps_names", "{\"x\":1}").unwrap();
    let mut list = vec![];
    commands::add_excluded_app(&mut db, &mut list, "com.a", "A").unwrap();
    assert_eq!(
        commands::get_app_config(&db, "excluded_apps_names"),
        Ok(Some("{\"com.a\":\"A\",\"x\":1}".to_string()))
    );
    commands::remove_excluded_app(&mut db, &mut list, "com.a").unwrap();
    assert_eq!(
        commands::get_app_config(&db, "excluded_apps_names"),
        Ok(Some("{\"x\":1}".to_string()))
    );
}

#[test]
fn a_skipped_poll_does_not_read_the_clipboard() {
    assert!(!clipboard_ultra::monitor::poll_due(true));
    assert!(clipboard_ultra::monitor::poll_due(false));
}
