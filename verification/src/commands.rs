//! The settings and list commands of the clipboard manager: defaults for
//! omitted arguments and the configuration keys behind each setting.

use vstd::prelude::*;
use crate::db::{Database, DbV, cfg_put};
use crate::db::expire::config_int;
use crate::db::items::window_spec;
use crate::model::{ClipboardItem, ItemV, TagRule, ov, osv};
use crate::outside::{
    json_object_with, json_object_without, json_pairs, json_strings, pairs_view, spec_json_object_with,
    spec_json_object_without, spec_json_pairs, spec_json_strings, spec_regex_error, spec_strings_json,
    strings_json,
    strings_view,
};
use crate::apps::{with_app, without_app};
use crate::text::{int_text, int_to_text, parse_i64};

verus! {

/// The shortcut that toggles the panel when none is configured.
pub open spec fn default_shortcut() -> Seq<char> {
    "CommandOrControl+Shift+V"@
}

/// The configuration key of a content type's retention setting.
pub open spec fn type_key(content_type: Seq<char>) -> Seq<char> {
    "expire_days_"@ + content_type
}

fn read_int(db: &Database, key: &str, default: i64) -> (r: Result<i64, String>)
    ensures
        r matches Ok(v) && v == config_int(db@, key@, default),
{
    match db.get_config(key) {
        Ok(Some(v)) => match parse_i64(v.as_str()) {
            Some(n) => Ok(n),
            None => Ok(default),
        },
        _ => Ok(default),
    }
}

fn write_int(db: &mut Database, key: &str, value: i64) -> (r: Result<(), String>)
    requires
        old(db).wf(),
    ensures
        final(db).wf(),
        r is Ok,
        final(db)@ == (DbV { config: cfg_put(old(db)@.config, key@, int_text(value as int)), ..old(db)@ }),
{
    let text = int_to_text(value);
    db.set_config(key, text.as_str())
}

fn type_key_exec(content_type: &str) -> (r: String)
    ensures
        r@ == type_key(content_type@),
{
    let mut k = "expire_days_".to_owned();
    k.append(content_type);
    k
}

/// Recent items: 50 unless `limit` is given, from `offset` (0 unless given).
pub fn get_clipboard_items(db: &Database, limit: Option<u32>, offset: Option<u32>) -> (r: Result<Vec<ClipboardItem>, String>)
    ensures
        r matches Ok(v) && v@.map_values(|x: ClipboardItem| x@) == window_spec(
            db@.items,
            |x: ItemV| true,
            match offset {
                Some(o) => o as int,
                None => 0,
            },
            match limit {
                Some(l) => l as int,
                None => 50,
            },
        ),
{
    let l = match limit {
        Some(l) => l,
        None => 50,
    };
    let o = match offset {
        Some(o) => o,
        None => 0,
    };
    db.get_recent(l, o)
}

/// Pinned items: 200 unless `limit` is given.
pub fn get_pinned_items(db: &Database, limit: Option<u32>) -> (r: Result<Vec<ClipboardItem>, String>)
    ensures
        r matches Ok(v) && v@.map_values(|x: ClipboardItem| x@) == window_spec(
            db@.items,
            |x: ItemV| x.is_pinned,
            0,
            match limit {
                Some(l) => l as int,
                None => 200,
            },
        ),
{
    let l = match limit {
        Some(l) => l,
        None => 200,
    };
    db.get_pinned(l)
}

/// Items on a board: 200 unless `limit` is given.
pub fn get_items_in_board(db: &Database, board_id: i64, limit: Option<u32>) -> (r: Result<Vec<ClipboardItem>, String>)
    ensures
        r matches Ok(v) && v@.map_values(|x: ClipboardItem| x@) == window_spec(
            db@.items,
            |x: ItemV| db@.is_member(board_id, x.id),
            0,
            match limit {
                Some(l) => l as int,
                None => 200,
            },
        ),
{
    let l = match limit {
        Some(l) => l,
        None => 200,
    };
    db.get_items_in_board(board_id, l)
}

/// Items with a tag: 50 unless `limit` is given.
pub fn get_items_by_tag(db: &Database, tag: &str, limit: Option<u32>) -> (r: Result<Vec<ClipboardItem>, String>)
    ensures
        r matches Ok(v) && v@.map_values(|x: ClipboardItem| x@) == window_spec(
            db@.items,
            |x: ItemV| x.tag == Some(tag@),
            0,
            match limit {
                Some(l) => l as int,
                None => 50,
            },
        ),
{
    let l = match limit {
        Some(l) => l,
        None => 50,
    };
    db.get_by_tag(tag, l)
}

/// Sets the tag of an item by hand; the empty string clears it.
pub fn set_item_tag(db: &mut Database, id: i64, tag: &str) -> (r: Result<(), String>)
    requires
        old(db).wf(),
    ensures
        final(db).wf(),
        r is Ok,
        final(db)@ == old(db)@.retag(
            id,
            if tag@.len() == 0 {
                None
            } else {
                Some(tag@)
            },
        ),
{
    if tag.is_empty() {
        db.set_item_tag(id, None)
    } else {
        db.set_item_tag(id, Some(tag))
    }
}

/// Adds a tag rule; an omitted expiry is 0 (keep forever).
pub fn add_tag_rule(
    db: &mut Database,
    name: &str,
    pattern: &str,
    color: &str,
    priority: i64,
    expire_days: Option<i64>,
) -> (r: Result<TagRule, String>)
    requires
        old(db).wf(),
    ensures
        final(db).wf(),
        match r {
            Ok(t) => {
                &&& (pattern@.len() == 0 || spec_regex_error(pattern@) is None)
                &&& old(db)@.rule_seq < i64::MAX
                &&& t.expire_days == match expire_days {
                    Some(d) => d,
                    None => 0,
                }
                &&& t@ == crate::db::rules::new_rule(
                    (old(db)@.rule_seq + 1) as i64,
                    name@,
                    pattern@,
                    color@,
                    priority,
                    t.expire_days,
                )
                &&& final(db)@ == (DbV { rules: old(db)@.rules.push(t@), rule_seq: t.id, ..old(db)@ })
            },
            Err(e) => {
                &&& final(db)@ == old(db)@
                &&& if pattern@.len() > 0 && spec_regex_error(pattern@) is Some {
                    e@ == "Invalid regex: "@ + spec_regex_error(pattern@)->0
                } else {
                    old(db)@.rule_seq == i64::MAX && e@ == crate::db::rules::full_msg()
                }
            },
        },
{
    let e = match expire_days {
        Some(d) => d,
        None => 0,
    };
    db.add_tag_rule(name, pattern, color, priority, e)
}

/// The default retention in days (0: keep forever).
pub fn get_default_expire_days(db: &Database) -> (r: Result<i64, String>)
    ensures
        r matches Ok(v) && v == config_int(db@, "default_expire_days"@, 0),
{
    read_int(db, "default_expire_days", 0)
}

/// Sets the default retention in days.
pub fn set_default_expire_days(db: &mut Database, days: i64) -> (r: Result<(), String>)
    requires
        old(db).wf(),
    ensures
        final(db).wf(),
        r is Ok,
        final(db)@ == (DbV {
            config: cfg_put(old(db)@.config, "default_expire_days"@, int_text(days as int)),
            ..old(db)@
        }),
{
    write_int(db, "default_expire_days", days)
}

/// The history limit (1000 unless set; negative: no limit).
pub fn get_max_items(db: &Database) -> (r: Result<i64, String>)
    ensures
        r matches Ok(v) && v == config_int(db@, "max_items"@, 1000),
{
    read_int(db, "max_items", 1000)
}

/// Sets the history limit.
pub fn set_max_items(db: &mut Database, count: i64) -> (r: Result<(), String>)
    requires
        old(db).wf(),
    ensures
        final(db).wf(),
        r is Ok,
        final(db)@ == (DbV {
            config: cfg_put(old(db)@.config, "max_items"@, int_text(count as int)),
            ..old(db)@
        }),
{
    write_int(db, "max_items", count)
}

/// The retention in days of a content type (0 unless set).
pub fn get_content_type_expire_days(db: &Database, content_type: &str) -> (r: Result<i64, String>)
    ensures
        r matches Ok(v) && v == config_int(db@, type_key(content_type@), 0),
{
    let key = type_key_exec(content_type);
    read_int(db, key.as_str(), 0)
}

/// Sets the retention in days of a content type.
pub fn set_content_type_expire_days(db: &mut Database, content_type: &str, days: i64) -> (r: Result<(), String>)
    requires
        old(db).wf(),
    ensures
        final(db).wf(),
        r is Ok,
        final(db)@ == (DbV {
            config: cfg_put(old(db)@.config, type_key(content_type@), int_text(days as int)),
            ..old(db)@
        }),
{
    let key = type_key_exec(content_type);
    write_int(db, key.as_str(), days)
}

/// The configured shortcut, or the default one.
pub fn get_shortcut(db: &Database) -> (r: Result<String, String>)
    ensures
        r matches Ok(s) && s@ == match db@.config_value("shortcut"@) {
            Some(v) => v,
            None => default_shortcut(),
        },
{
    match db.get_config("shortcut") {
        Ok(Some(v)) => Ok(v),
        _ => Ok("CommandOrControl+Shift+V".to_owned()),
    }
}

/// Reads a configuration value.
pub fn get_app_config(db: &Database, key: &str) -> (r: Result<Option<String>, String>)
    ensures
        r matches Ok(v) && ov(v) == db@.config_value(key@),
{
    db.get_config(key)
}

/// Writes a configuration value.
pub fn set_app_config(db: &mut Database, key: &str, value: &str) -> (r: Result<(), String>)
    requires
        old(db).wf(),
    ensures
        final(db).wf(),
        r is Ok,
        final(db)@ == (DbV { config: cfg_put(old(db)@.config, key@, value@), ..old(db)@ }),
{
    db.set_config(key, value)
}

// ---------- excluded applications ----------

/// The excluded applications stored in the configuration (a JSON array
/// under `excluded_apps`); a missing or unreadable entry reads as none.
pub open spec fn stored_excluded(db: DbV) -> Seq<Seq<char>> {
    match db.config_value("excluded_apps"@) {
        Some(t) => match spec_json_strings(t) {
            Some(l) => l,
            None => Seq::empty(),
        },
        None => Seq::empty(),
    }
}

/// The display names of excluded applications stored in the configuration
/// (a JSON object under `excluded_apps_names`, application to name); a
/// missing or unreadable entry reads as none.
pub open spec fn stored_names(db: DbV) -> Seq<(Seq<char>, Seq<char>)> {
    match db.config_value("excluded_apps_names"@) {
        Some(t) => match spec_json_pairs(t) {
            Some(p) => p,
            None => Seq::empty(),
        },
        None => Seq::empty(),
    }
}

/// The stored names of excluded applications as text (`{}` when none is
/// stored).
pub open spec fn names_text(db: DbV) -> Seq<char> {
    match db.config_value("excluded_apps_names"@) {
        Some(t) => t,
        None => "{}"@,
    }
}

/// Reads the excluded applications at startup.
pub fn load_excluded_apps(db: &Database) -> (r: Vec<String>)
    ensures
        strings_view(r@) == stored_excluded(db@),
{
    proof {
        reveal_strlit("excluded_apps");
    }
    match db.get_config("excluded_apps") {
        Ok(Some(t)) => match json_strings(t.as_str()) {
            Some(l) => l,
            None => {
                let v: Vec<String> = Vec::new();
                proof {
                    assert(strings_view(v@) =~= Seq::<Seq<char>>::empty());
                }
                v
            },
        },
        _ => {
            let v: Vec<String> = Vec::new();
            proof {
                assert(strings_view(v@) =~= Seq::<Seq<char>>::empty());
            }
            v
        },
    }
}

fn read_names(db: &Database) -> (r: Vec<(String, String)>)
    ensures
        pairs_view(r@) == stored_names(db@),
{
    proof {
        reveal_strlit("excluded_apps_names");
    }
    match db.get_config("excluded_apps_names") {
        Ok(Some(t)) => match json_pairs(t.as_str()) {
            Some(p) => p,
            None => {
                let v: Vec<(String, String)> = Vec::new();
                proof {
                    assert(pairs_view(v@) =~= Seq::<(Seq<char>, Seq<char>)>::empty());
                }
                v
            },
        },
        _ => {
            let v: Vec<(String, String)> = Vec::new();
            proof {
                assert(pairs_view(v@) =~= Seq::<(Seq<char>, Seq<char>)>::empty());
            }
            v
        },
    }
}

/// The display names of the excluded applications.
pub fn get_excluded_apps_names(db: &Database) -> (r: Result<Vec<(String, String)>, String>)
    ensures
        r matches Ok(v) && pairs_view(v@) == stored_names(db@),
{
    Ok(read_names(db))
}

fn read_names_text(db: &Database) -> (r: String)
    ensures
        r@ == names_text(db@),
{
    proof {
        reveal_strlit("excluded_apps_names");
    }
    match db.get_config("excluded_apps_names") {
        Ok(Some(t)) => t,
        _ => "{}".to_owned(),
    }
}

/// Excludes an application from recording: it is added to the list (once)
/// and the list is stored; its display name is stored too.
pub fn add_excluded_app(
    db: &mut Database,
    list: &mut Vec<String>,
    bundle_id: &str,
    app_name: &str,
) -> (r: Result<(), String>)
    requires
        old(db).wf(),
    ensures
        final(db).wf(),
        strings_view(final(list)@) == with_app(strings_view(old(list)@), bundle_id@),
        match spec_strings_json(with_app(strings_view(old(list)@), bundle_id@)) {
            Err(e) => (r matches Err(x) && x@ == e) && final(db)@ == old(db)@,
            Ok(j) => {
                let d1 = DbV { config: cfg_put(old(db)@.config, "excluded_apps"@, j), ..old(db)@ };
                match spec_json_object_with(names_text(old(db)@), bundle_id@, app_name@) {
                    Err(e) => (r matches Err(x) && x@ == e) && final(db)@ == d1,
                    Ok(n) => r is Ok && final(db)@ == (DbV {
                        config: cfg_put(d1.config, "excluded_apps_names"@, n),
                        ..d1
                    }),
                }
            },
        },
{
    crate::apps::add_excluded_app(list, bundle_id);
    let json = match strings_json(list) {
        Ok(j) => j,
        Err(e) => {
            return Err(e);
        },
    };
    let ghost d0 = db@;
    let _ = db.set_config("excluded_apps", json.as_str());
    proof {
        reveal_strlit("excluded_apps");
        reveal_strlit("excluded_apps_names");
        assert("excluded_apps"@.len() != "excluded_apps_names"@.len());
        crate::laws::law_config_read_after_write(d0.config, "excluded_apps"@, json@, "excluded_apps_names"@);
        assert(names_text(db@) == names_text(d0));
    }
    let names = read_names_text(db);
    let text = match json_object_with(names.as_str(), bundle_id, app_name) {
        Ok(t) => t,
        Err(e) => {
            return Err(e);
        },
    };
    db.set_config("excluded_apps_names", text.as_str())
}

/// Lets an application be recorded again: every copy of it leaves the
/// list, the list is stored, and its display name is dropped.
pub fn remove_excluded_app(db: &mut Database, list: &mut Vec<String>, bundle_id: &str) -> (r: Result<(), String>)
    requires
        old(db).wf(),
    ensures
        final(db).wf(),
        strings_view(final(list)@) == without_app(strings_view(old(list)@), bundle_id@),
        match spec_strings_json(without_app(strings_view(old(list)@), bundle_id@)) {
            Err(e) => (r matches Err(x) && x@ == e) && final(db)@ == old(db)@,
            Ok(j) => {
                let d1 = DbV { config: cfg_put(old(db)@.config, "excluded_apps"@, j), ..old(db)@ };
                match spec_json_object_without(names_text(old(db)@), bundle_id@) {
                    Err(e) => (r matches Err(x) && x@ == e) && final(db)@ == d1,
                    Ok(n) => r is Ok && final(db)@ == (DbV {
                        config: cfg_put(d1.config, "excluded_apps_names"@, n),
                        ..d1
                    }),
                }
            },
        },
{
    crate::apps::remove_excluded_app(list, bundle_id);
    let json = match strings_json(list) {
        Ok(j) => j,
        Err(e) => {
            return Err(e);
        },
    };
    let ghost d0 = db@;
    let _ = db.set_config("excluded_apps", json.as_str());
    proof {
        reveal_strlit("excluded_apps");
        reveal_strlit("excluded_apps_names");
        assert("excluded_apps"@.len() != "excluded_apps_names"@.len());
        crate::laws::law_config_read_after_write(d0.config, "excluded_apps"@, json@, "excluded_apps_names"@);
        assert(names_text(db@) == names_text(d0));
    }
    let names = read_names_text(db);
    let text = match json_object_without(names.as_str(), bundle_id) {
        Ok(t) => t,
        Err(e) => {
            return Err(e);
        },
    };
    db.set_config("excluded_apps_names", text.as_str())
}

} // verus!
