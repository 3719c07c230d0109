use clipboard_ultra::commands;
use clipboard_ultra::db::Database;
use clipboard_ultra::db::items::hash_text;
use clipboard_ultra::model::{ClipboardItem, ConfigEntry};

fn texts(items: &[ClipboardItem]) -> Vec<String> {
    items.iter().map(|x| x.content.clone()).collect()
}

#[test]
fn hash_text_is_sha256_hex() {
    assert_eq!(
        hash_text("abc"),
        "ba7816bf8f01cfea414140de5dae2223b00361a396177a9cb410ff61f20015ad"
    );
    assert_eq!(
        hash_text("hello"),
        "2cf24dba5fb0a30e26e83b2ac5b9e29e1b161e5c1fa7425e73043362938b9824"
    );
}

#[test]
fn new_database_has_only_the_favorites_board() {
    let db = Database::new_at(100);
    let boards = db.list_boards().unwrap();
    assert_eq!(boards.len(), 1);
    assert_eq!(boards[0].name, "收藏夹");
    assert!(boards[0].is_builtin);
    assert_eq!(db.count_items().unwrap(), 0);
}

#[test]
fn recent_items_are_newest_first() {
    let mut db = Database::new_at(0);
    db.insert_text_at("first", None, None, 10).unwrap();
    db.insert_text_at("second", Some("com.apple.Safari"), Some("Safari"), 20).unwrap();
    db.insert_text_at("third", None, None, 30).unwrap();
    let r = db.get_recent(50, 0).unwrap();
    assert_eq!(texts(&r), vec!["third", "second", "first"]);
    assert_eq!(r[1].source_app.as_deref(), Some("com.apple.Safari"));
    assert_eq!(r[1].source_app_name.as_deref(), Some("Safari"));
    assert_eq!(r[0].content_type, "text");
    assert_eq!(r[0].content_hash, hash_text("third"));
    let page = db.get_recent(1, 1).unwrap();
    assert_eq!(texts(&page), vec!["second"]);
}

#[test]
fn copying_the_same_text_again_moves_it_up_and_counts_it() {
    let mut db = Database::new_at(0);
    db.insert_text_at("a", None, None, 10).unwrap();
    db.insert_text_at("b", None, None, 20).unwrap();
    db.insert_text_at("a", None, None, 30).unwrap();
    assert_eq!(db.count_items().unwrap(), 2);
    let r = db.get_recent(50, 0).unwrap();
    assert_eq!(texts(&r), vec!["a", "b"]);
    assert_eq!(r[0].use_count, 1);
    assert_eq!(r[0].updated_at, 30);
    assert_eq!(r[0].created_at, 10);
    assert_eq!(r[0].last_used_at, Some(30));
}

#[test]
fn touch_and_delete_item() {
    let mut db = Database::new_at(0);
    db.insert_text_at("x", None, None, 10).unwrap();
    let id = db.get_recent(1, 0).unwrap()[0].id;
    db.touch_item_at(id, 50);
    let x = db.get_item_by_id(id).unwrap().unwrap();
    assert_eq!(x.use_count, 1);
    assert_eq!(x.updated_at, 50);
    db.delete_item(id).unwrap();
    assert!(db.get_item_by_id(id).unwrap().is_none());
    assert_eq!(db.count_items().unwrap(), 0);
}

#[test]
fn history_limit_evicts_oldest_loose_items_but_keeps_board_items() {
    let mut db = Database::new_at(0);
    commands::set_max_items(&mut db, 2).unwrap();
    db.insert_text_at("one", None, None, 1).unwrap();
    let one = db.get_recent(1, 0).unwrap()[0].id;
    db.toggle_pin_at(one, 2).unwrap();
    db.insert_text_at("two", None, None, 3).unwrap();
    db.insert_text_at("three", None, None, 4).unwrap();
    db.insert_text_at("four", None, None, 5).unwrap();
    let r = db.get_recent(50, 0).unwrap();
    assert_eq!(texts(&r), vec!["four", "three", "one"]);
    assert!(db.get_item_by_id(one).unwrap().is_some());
}

#[test]
fn negative_history_limit_keeps_everything() {
    let mut db = Database::new_at(0);
    commands::set_max_items(&mut db, -1).unwrap();
    for i in 0..5 {
        db.insert_text_at(&format!("t{}", i), None, None, i).unwrap();
    }
    assert_eq!(db.count_items().unwrap(), 5);
}

#[test]
fn search_is_case_insensitive_and_limited() {
    let mut db = Database::new_at(0);
    db.insert_text_at("Hello World", None, None, 1).unwrap();
    db.insert_text_at("goodbye", None, None, 2).unwrap();
    db.insert_text_at("say HELLO", None, None, 3).unwrap();
    let r = db.search("hello").unwrap();
    assert_eq!(texts(&r), vec!["say HELLO", "Hello World"]);
    for i in 0..60 {
        db.insert_text_at(&format!("hello {}", i), None, None, 10 + i).unwrap();
    }
    assert_eq!(db.search("hello").unwrap().len(), 50);
}

#[test]
fn tag_rules_tag_new_text() {
    let mut db = Database::new_at(0);
    let rule = db.add_tag_rule("link", "builtin:url", "#00f", 10, 0).unwrap();
    assert_eq!(rule.id, 1);
    db.add_tag_rule("num", "^[0-9]+$", "#0f0", 5, 0).unwrap();
    db.insert_text_at("https://example.com", None, None, 1).unwrap();
    db.insert_text_at("12345", None, None, 2).unwrap();
    db.insert_text_at("plain words", None, None, 3).unwrap();
    let r = db.get_recent(50, 0).unwrap();
    assert_eq!(r[0].tag, None);
    assert_eq!(r[1].tag.as_deref(), Some("num"));
    assert_eq!(r[2].tag.as_deref(), Some("link"));
    let tagged = db.get_by_tag("num", 50).unwrap();
    assert_eq!(texts(&tagged), vec!["12345"]);
    let rules = db.get_tag_rules().unwrap();
    assert_eq!(rules.len(), 2);
    assert_eq!(rules[0].name, "link");
}

#[test]
fn invalid_regex_is_refused() {
    let mut db = Database::new_at(0);
    let e = db.add_tag_rule("bad", "(", "#000", 0, 0).unwrap_err();
    assert!(e.starts_with("Invalid regex: "));
    assert_eq!(db.get_tag_rules().unwrap().len(), 0);
}

#[test]
fn delete_and_update_tag_rule() {
    let mut db = Database::new_at(0);
    let r = db.add_tag_rule("n", "x", "#000", 0, 0).unwrap();
    db.update_tag_rule_expire(r.id, 7).unwrap();
    assert_eq!(db.get_tag_rules().unwrap()[0].expire_days, 7);
    db.delete_tag_rule(r.id).unwrap();
    assert!(db.get_tag_rules().unwrap().is_empty());
}

#[test]
fn set_item_tag_and_clear_it() {
    let mut db = Database::new_at(0);
    db.insert_text_at("x", None, None, 1).unwrap();
    let id = db.get_recent(1, 0).unwrap()[0].id;
    commands::set_item_tag(&mut db, id, "work").unwrap();
    assert_eq!(db.get_item_by_id(id).unwrap().unwrap().tag.as_deref(), Some("work"));
    commands::set_item_tag(&mut db, id, "").unwrap();
    assert_eq!(db.get_item_by_id(id).unwrap().unwrap().tag, None);
}

#[test]
fn edit_keeps_tag_pin_and_boards() {
    let mut db = Database::new_at(0);
    db.insert_text_at("old", None, None, 1).unwrap();
    let id = db.get_recent(1, 0).unwrap()[0].id;
    db.set_item_tag(id, Some("t")).unwrap();
    db.toggle_pin_at(id, 2).unwrap();
    db.update_item_content_at(id, "  new text  ", 3).unwrap();
    let x = db.get_item_by_id(id).unwrap().unwrap();
    assert_eq!(x.content, "new text");
    assert_eq!(x.content_hash, hash_text("new text"));
    assert_eq!(x.tag.as_deref(), Some("t"));
    assert!(x.is_pinned);
    assert_eq!(x.updated_at, 3);
    assert_eq!(db.get_board_ids_for_item(id).unwrap().len(), 1);
}

#[test]
fn edit_errors() {
    let mut db = Database::new_at(0);
    db.insert_text_at("x", None, None, 1).unwrap();
    let id = db.get_recent(1, 0).unwrap()[0].id;
    assert_eq!(db.update_item_content_at(id, "   ", 2).unwrap_err(), "内容不能为空");
    assert_eq!(db.update_item_content_at(id + 100, "y", 2).unwrap_err(), "条目不存在或非文本类型");
    db.insert_image_at("f.png", "hashimg", None, None, 3).unwrap();
    let img = db.get_recent(1, 0).unwrap()[0].id;
    assert_eq!(db.update_item_content_at(img, "y", 4).unwrap_err(), "条目不存在或非文本类型");
}

#[test]
fn images_are_recorded_once_per_hash() {
    let mut db = Database::new_at(0);
    db.insert_image_at("a.png", "h1", None, None, 1).unwrap();
    db.insert_image_at("b.png", "h1", None, None, 2).unwrap();
    assert_eq!(db.count_items().unwrap(), 1);
    let x = &db.get_recent(1, 0).unwrap()[0];
    assert_eq!(x.content_type, "image");
    assert_eq!(x.content, "[图片]");
    assert_eq!(x.blob_path.as_deref(), Some("a.png"));
    assert_eq!(x.use_count, 1);
}

#[test]
fn full_id_space_refuses_new_items() {
    let db = Database::from_parts(vec![], vec![], vec![], vec![], vec![], i64::MAX, 0, 0).unwrap();
    let mut db = db;
    assert_eq!(db.insert_text_at("x", None, None, 1).unwrap_err(), "database or disk is full");
    assert_eq!(db.count_items().unwrap(), 0);
}

#[test]
fn expired_items_are_deleted_unless_on_a_board() {
    let mut db = Database::new_at(0);
    let day = 86400;
    commands::set_default_expire_days(&mut db, 1).unwrap();
    db.insert_text_at("old", None, None, 0).unwrap();
    db.insert_text_at("kept", None, None, 1).unwrap();
    let kept = db.search("kept").unwrap()[0].id;
    db.toggle_pin_at(kept, 1).unwrap();
    db.insert_text_at("fresh", None, None, 2 * day).unwrap();
    let removed = db.cleanup_expired_items_at(2 * day + 10).unwrap();
    assert_eq!(removed, 1);
    let r = db.get_recent(50, 0).unwrap();
    assert_eq!(texts(&r), vec!["fresh", "kept"]);
}

#[test]
fn rule_and_type_retention() {
    let mut db = Database::new_at(0);
    let day = 86400;
    db.add_tag_rule("tmp", "tmp.*", "#000", 0, 2).unwrap();
    commands::set_content_type_expire_days(&mut db, "text", 5).unwrap();
    db.insert_text_at("tmp one", None, None, 0).unwrap();
    db.insert_text_at("note", None, None, 0).unwrap();
    assert_eq!(db.cleanup_expired_items_at(3 * day).unwrap(), 1);
    assert_eq!(db.cleanup_expired_items_at(6 * day).unwrap(), 1);
    assert_eq!(db.count_items().unwrap(), 0);
}

#[test]
fn restored_tables_must_be_consistent() {
    let cfg = vec![ConfigEntry { key: "max_items".to_string(), value: "3".to_string() }];
    let ok = Database::from_parts(vec![], vec![], vec![], vec![], cfg, 0, 0, 0);
    assert!(ok.is_some());
    assert_eq!(commands::get_max_items(&ok.unwrap()).unwrap(), 3);
    let bad = Database::from_parts(vec![], vec![], vec![], vec![], vec![], -1, 0, 0);
    assert!(bad.is_none());
}

fn pinned_item(id: i64, content: &str, at: i64) -> ClipboardItem {
    ClipboardItem {
        id,
        content_type: "text".to_string(),
        content: content.to_string(),
        content_hash: hash_text(content),
        blob_path: None,
        tag: None,
        created_at: at,
        updated_at: at,
        is_pinned: true,
        use_count: 0,
        last_used_at: None,
        source_app: None,
        source_app_name: None,
    }
}

#[test]
fn pinned_items_survive_expiry_and_the_history_limit_without_a_board() {
    let cfg = vec![
        ConfigEntry { key: "default_expire_days".to_string(), value: "1".to_string() },
        ConfigEntry { key: "max_items".to_string(), value: "0".to_string() },
    ];
    let items = vec![pinned_item(1, "keep me", 0)];
    let mut db = Database::from_parts(items, vec![], vec![], vec![], cfg, 1, 0, 0).unwrap();
    assert_eq!(db.cleanup_expired_items_at(10 * 86400).unwrap(), 0);
    db.insert_text_at("loose", None, None, 10 * 86400).unwrap();
    let r = db.get_recent(50, 0).unwrap();
    assert_eq!(texts(&r), vec!["keep me"]);
}

#[test]
fn clock_based_calls_succeed_now() {
    let mut db = Database::new().unwrap();
    db.insert_text("now", None, None).unwrap();
    let id = db.get_recent(1, 0).unwrap()[0].id;
    db.touch_item(id).unwrap();
    assert_eq!(db.get_item_by_id(id).unwrap().unwrap().use_count, 1);
    assert_eq!(db.cleanup_expired_items().unwrap(), 0);
}
