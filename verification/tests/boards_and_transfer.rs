use clipboard_ultra::db::Database;
use clipboard_ultra::model::{ExportBoard, ExportItem, ExportTagRule};

fn fav_id(db: &Database) -> i64 {
    db.list_boards().unwrap().iter().find(|b| b.is_builtin).unwrap().id
}

fn first_id(db: &Database) -> i64 {
    db.get_recent(1, 0).unwrap()[0].id
}

#[test]
fn toggle_pin_mirrors_favorites_board() {
    let mut db = Database::new_at(0);
    db.insert_text_at("x", None, None, 1).unwrap();
    let id = first_id(&db);
    let fav = fav_id(&db);
    assert_eq!(db.toggle_pin_at(id, 2), Ok(true));
    assert!(db.get_item_by_id(id).unwrap().unwrap().is_pinned);
    assert_eq!(db.get_board_ids_for_item(id).unwrap(), vec![fav]);
    assert_eq!(db.get_pinned(200).unwrap().len(), 1);
    assert_eq!(db.toggle_pin_at(id, 3), Ok(false));
    assert!(!db.get_item_by_id(id).unwrap().unwrap().is_pinned);
    assert!(db.get_board_ids_for_item(id).unwrap().is_empty());
}

#[test]
fn toggle_pin_of_unknown_item_fails() {
    let mut db = Database::new_at(0);
    assert_eq!(db.toggle_pin_at(42, 1), Err("Query returned no rows".to_string()));
}

#[test]
fn favorites_board_sets_and_clears_pin() {
    let mut db = Database::new_at(0);
    db.insert_text_at("x", None, None, 1).unwrap();
    let id = first_id(&db);
    let fav = fav_id(&db);
    db.add_item_to_board_at(fav, id, 2).unwrap();
    assert!(db.get_item_by_id(id).unwrap().unwrap().is_pinned);
    db.remove_item_from_board(fav, id).unwrap();
    assert!(!db.get_item_by_id(id).unwrap().unwrap().is_pinned);
}

#[test]
fn user_boards_create_list_rename_recolor_delete() {
    let mut db = Database::new_at(0);
    let a = db.create_board_at("  Work  ", "#111", 1).unwrap();
    assert_eq!(a.name, "Work");
    assert_eq!(a.sort_order, 1);
    assert!(!a.is_builtin);
    let b = db.create_board_at("Home", "#222", 2).unwrap();
    assert_eq!(b.sort_order, 2);
    let names: Vec<String> = db.list_boards().unwrap().iter().map(|x| x.name.clone()).collect();
    assert_eq!(names, vec!["收藏夹", "Work", "Home"]);
    db.reorder_boards(&[b.id, a.id]).unwrap();
    let names: Vec<String> = db.list_boards().unwrap().iter().map(|x| x.name.clone()).collect();
    assert_eq!(names, vec!["收藏夹", "Home", "Work"]);
    db.rename_board(a.id, "Office").unwrap();
    db.recolor_board(a.id, "#333").unwrap();
    let w = db.list_boards().unwrap().into_iter().find(|x| x.id == a.id).unwrap();
    assert_eq!(w.name, "Office");
    assert_eq!(w.color, "#333");
    db.insert_text_at("note", None, None, 3).unwrap();
    let id = first_id(&db);
    db.add_item_to_board_at(a.id, id, 4).unwrap();
    assert_eq!(db.get_items_in_board(a.id, 200).unwrap().len(), 1);
    assert!(!db.get_item_by_id(id).unwrap().unwrap().is_pinned);
    db.delete_board(a.id).unwrap();
    assert_eq!(db.list_boards().unwrap().len(), 2);
    assert!(db.get_board_ids_for_item(id).unwrap().is_empty());
    assert!(db.get_item_by_id(id).unwrap().is_some());
}

#[test]
fn board_errors() {
    let mut db = Database::new_at(0);
    assert_eq!(db.create_board_at("   ", "#000", 1).unwrap_err(), "板名称不能为空");
    let a = db.create_board_at("A", "#000", 1).unwrap();
    assert_eq!(db.rename_board(a.id, "").unwrap_err(), "板名称不能为空");
    assert_eq!(
        db.add_item_to_board_at(a.id, 999, 2).unwrap_err(),
        "FOREIGN KEY constraint failed"
    );
}

#[test]
fn builtin_board_cannot_be_deleted_or_renamed() {
    let mut db = Database::new_at(0);
    let fav = fav_id(&db);
    db.delete_board(fav).unwrap();
    db.rename_board(fav, "Other").unwrap();
    let boards = db.list_boards().unwrap();
    assert_eq!(boards.len(), 1);
    assert_eq!(boards[0].name, "收藏夹");
}

fn sample_export() -> (Vec<ExportItem>, Vec<ExportTagRule>, Vec<ExportBoard>) {
    let mut db = Database::new_at(0);
    db.add_tag_rule("num", "[0-9]+", "#0f0", 3, 0).unwrap();
    let b = db.create_board_at("Work", "#111", 1).unwrap();
    db.insert_text_at("123", None, None, 2).unwrap();
    let id = first_id(&db);
    db.add_item_to_board_at(b.id, id, 3).unwrap();
    db.insert_text_at("plain", None, None, 4).unwrap();
    (
        db.export_items().unwrap(),
        db.export_tag_rules().unwrap(),
        db.export_boards().unwrap(),
    )
}

#[test]
fn export_lists_items_with_board_names() {
    let (items, rules, boards) = sample_export();
    assert_eq!(items.len(), 2);
    let num = items.iter().find(|x| x.content == "123").unwrap();
    assert_eq!(num.boards, vec!["Work".to_string()]);
    assert_eq!(num.tag.as_deref(), Some("num"));
    assert_eq!(rules.len(), 1);
    assert_eq!(rules[0].name, "num");
    assert_eq!(boards.len(), 2);
}

#[test]
fn import_into_empty_database_restores_items_and_boards() {
    let (items, rules, boards) = sample_export();
    let mut db = Database::new_at(0);
    let added = db.import_all_at(&items, &rules, &boards, 10).unwrap();
    assert_eq!(added, 2);
    assert_eq!(db.count_items().unwrap(), 2);
    assert_eq!(db.get_tag_rules().unwrap().len(), 1);
    let work = db.list_boards().unwrap().into_iter().find(|b| b.name == "Work").unwrap();
    let in_work = db.get_items_in_board(work.id, 200).unwrap();
    assert_eq!(in_work.len(), 1);
    assert_eq!(in_work[0].content, "123");
    let again = db.export_items().unwrap();
    assert_eq!(again.len(), items.len());
    for (a, b) in again.iter().zip(items.iter()) {
        assert_eq!(a.content, b.content);
        assert_eq!(a.content_hash, b.content_hash);
        assert_eq!(a.tag, b.tag);
        assert_eq!(a.created_at, b.created_at);
        assert_eq!(a.updated_at, b.updated_at);
        assert_eq!(a.boards, b.boards);
    }
}

#[test]
fn importing_twice_adds_nothing_the_second_time() {
    let (items, rules, boards) = sample_export();
    let mut db = Database::new_at(0);
    db.import_all_at(&items, &rules, &boards, 10).unwrap();
    let again = db.import_all_at(&items, &rules, &boards, 11).unwrap();
    assert_eq!(again, 0);
    assert_eq!(db.count_items().unwrap(), 2);
    assert_eq!(db.get_tag_rules().unwrap().len(), 1);
    assert_eq!(db.list_boards().unwrap().len(), 2);
}

#[test]
fn deleting_an_item_removes_it_from_its_boards() {
    let mut db = Database::new_at(0);
    let b = db.create_board_at("B", "#000", 1).unwrap();
    db.insert_text_at("x", None, None, 2).unwrap();
    let id = first_id(&db);
    db.add_item_to_board_at(b.id, id, 3).unwrap();
    db.toggle_pin_at(id, 4).unwrap();
    assert_eq!(db.get_board_ids_for_item(id).unwrap().len(), 2);
    db.delete_item(id).unwrap();
    assert!(db.get_items_in_board(b.id, 200).unwrap().is_empty());
    assert!(db.get_pinned(200).unwrap().is_empty());
    assert!(db.get_board_ids_for_item(id).unwrap().is_empty());
}

#[test]
fn reimporting_own_export_adds_nothing() {
    let mut db = Database::new_at(0);
    db.insert_text_at("a", None, None, 1).unwrap();
    db.insert_text_at("b", None, None, 2).unwrap();
    let items = db.export_items().unwrap();
    let rules = db.export_tag_rules().unwrap();
    let boards = db.export_boards().unwrap();
    assert_eq!(db.import_all_at(&items, &rules, &boards, 5).unwrap(), 0);
    assert_eq!(db.count_items().unwrap(), 2);
}

#[test]
fn toggling_twice_restores_pin_and_boards() {
    let mut db = Database::new_at(0);
    db.insert_text_at("x", None, None, 1).unwrap();
    let id = first_id(&db);
    assert_eq!(db.toggle_pin_at(id, 2), Ok(true));
    assert_eq!(db.toggle_pin_at(id, 3), Ok(false));
    assert!(!db.get_item_by_id(id).unwrap().unwrap().is_pinned);
    assert!(db.get_board_ids_for_item(id).unwrap().is_empty());
}

#[test]
fn ensuring_favorites_twice_changes_nothing() {
    let mut db = Database::new_at(0);
    db.insert_text_at("x", None, None, 1).unwrap();
    let before = db.list_boards().unwrap().len();
    db.ensure_favorites_board_at(5);
    db.ensure_favorites_board_at(6);
    assert_eq!(db.list_boards().unwrap().len(), before);
    assert_eq!(db.memberships().len(), 0);
}

#[test]
fn missing_rows_are_reported_before_anything_else() {
    let mut db = Database::new_at(0);
    assert_eq!(db.toggle_pin(77), Err("Query returned no rows".to_string()));
    assert_eq!(db.add_item_to_board(1, 77), Err("FOREIGN KEY constraint failed".to_string()));
    assert_eq!(db.update_item_content(77, " "), Err("内容不能为空".to_string()));
    assert_eq!(db.update_item_content(77, "x"), Err("条目不存在或非文本类型".to_string()));
    assert_eq!(
        clipboard_ultra::monitor::paste_item(&mut db, 77).err(),
        Some("Item not found".to_string())
    );
}

#[test]
fn favorites_board_is_made_for_pinned_items() {
    let pinned = clipboard_ultra::model::ClipboardItem {
        id: 1,
        content_type: "text".to_string(),
        content: "p".to_string(),
        content_hash: "h".to_string(),
        blob_path: None,
        tag: None,
        created_at: 0,
        updated_at: 0,
        is_pinned: true,
        use_count: 0,
        last_used_at: None,
        source_app: None,
        source_app_name: None,
    };
    let mut db = Database::from_parts(vec![pinned], vec![], vec![], vec![], vec![], 1, 0, 0).unwrap();
    db.ensure_favorites_board_at(9);
    let boards = db.list_boards().unwrap();
    assert_eq!(boards.len(), 1);
    assert_eq!(boards[0].name, "收藏夹");
    assert_eq!(boards[0].color, "#f5c518");
    assert_eq!(boards[0].sort_order, 0);
    assert_eq!(db.get_board_ids_for_item(1).unwrap(), vec![boards[0].id]);
}
