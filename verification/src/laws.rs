//! Properties that relate several operations of the library: what a read
//! gives back after a write, what a deletion leaves behind, which items the
//! clean-ups never touch, and what seeing the same content twice does.

use vstd::prelude::*;
use crate::apps::{with_app, without_app};
use crate::db::{
    DbV, cfg_get, cfg_put, first_index, id_is, lemma_first_index, lemma_first_index_bounds,
    lemma_ids_remove,
};
use crate::db::{Database, keep_where, lemma_keep_where};
use crate::db::boards::{add_link, adopt_pinned, drop_link, fav_name, has_link};
use crate::db::items::{
    evicted, hash_is, item_key, keys_upto, lemma_keys_upto, loose_keys, max_items_limit, survives,
    text_hash,
};
use crate::db::transfer::{import_boards, import_items, import_rules};
use crate::like::{contains_like, fold_ascii, like_match};
use crate::keysort::{SortKey, key_order, lemma_key_order_total, sorted_keys};
use crate::model::{BoardV, ExportItemV};
use crate::db::expire::config_int;
use crate::model::{ItemV, Membership};
use crate::monitor::{poll_image_step, poll_text_step};
use crate::text::{int_text, lemma_parse_int_text};

verus! {

broadcast use {vstd::seq_lib::group_filter_ensures, vstd::seq_lib::group_to_multiset_ensures};

/// Nothing copied in an excluded application is recorded; once a text has
/// been seen (recorded, or remembered from an excluded application),
/// finding the same text again, in any application, records nothing and
/// leaves the watcher as it was.
pub proof fn law_seen_text_not_recorded_again(last: Seq<char>, text: Seq<char>, excluded: bool, again: bool)
    ensures
        poll_text_step(last, text, true).0 is None,
        poll_text_step(poll_text_step(last, text, excluded).1, text, again) == (
            None::<Seq<char>>,
            poll_text_step(last, text, excluded).1,
        ),
{
}

/// No image copied in an excluded application is stored; once an image
/// has been seen, finding the same image again stores nothing and leaves
/// the watcher as it was.
pub proof fn law_seen_image_not_stored_again(last: Seq<char>, png: Seq<u8>, excluded: bool, again: bool)
    ensures
        poll_image_step(last, png, true).0 is None,
        poll_image_step(poll_image_step(last, png, excluded).1, png, again) == (
            None::<Seq<char>>,
            poll_image_step(last, png, excluded).1,
        ),
{
}

/// A configuration value reads back as the value last written under its
/// key; the values of other keys do not change.
pub proof fn law_config_read_after_write(
    c: Seq<(Seq<char>, Seq<char>)>,
    key: Seq<char>,
    value: Seq<char>,
    other: Seq<char>,
)
    ensures
        cfg_get(cfg_put(c, key, value), key) == Some(value),
        other != key ==> cfg_get(cfg_put(c, key, value), other) == cfg_get(c, other),
    decreases c.len(),
{
    if c.len() == 0 {
        assert(seq![(key, value)].drop_first() =~= c);
    } else {
        let t = c.drop_first();
        if c[0].0 == key {
            assert((seq![(key, value)] + t).drop_first() =~= t);
        } else {
            law_config_read_after_write(t, key, value, other);
            assert((seq![c[0]] + cfg_put(t, key, value)).drop_first() =~= cfg_put(t, key, value));
        }
    }
}

/// A number written to an integer setting (history limit, retention days)
/// reads back as that number, whatever the default.
pub proof fn law_int_setting_read_after_write(db: DbV, key: Seq<char>, n: i64, default: i64)
    ensures
        config_int(DbV { config: cfg_put(db.config, key, int_text(n as int)), ..db }, key, default) == n,
{
    law_config_read_after_write(db.config, key, int_text(n as int), key);
    lemma_parse_int_text(n);
}

/// Deleting an item removes it, and removes it from every board.
pub proof fn law_delete_item_cascades(db: DbV, id: i64)
    requires
        db.wf(),
    ensures
        !db.delete(id).has_item(id),
        forall|k: int|
            0 <= k < db.delete(id).members.len() ==> (#[trigger] db.delete(id).members[k]).item_id != id,
        forall|x: i64| x != id ==> (db.delete(id).has_item(x) <==> db.has_item(x)),
{
    let p = db.item_pos(id);
    lemma_first_index_bounds(db.items, id_is(id));
    let ids = db.item_ids();
    let d = db.delete(id);
    if p < db.items.len() {
        lemma_ids_remove(ids, db.item_seq, p);
        assert(d.item_ids() =~= ids.remove(p));
        assert(ids[p] == id);
    } else {
        assert(d.items == db.items);
        assert forall|j: int| 0 <= j < ids.len() implies ids[j] != id by {
            assert(!id_is(id)(db.items[j]));
        }
    }
    assert forall|k: int| 0 <= k < d.members.len() implies (#[trigger] d.members[k]).item_id != id by {
        db.members.lemma_filter_pred(|m: Membership| m.item_id != id, k);
    }
}

/// Adding an application to the excluded list twice is the same as adding
/// it once; after it is added it is on the list, and after it is removed
/// it is not.
pub proof fn law_excluded_list(list: Seq<Seq<char>>, app: Seq<char>)
    ensures
        with_app(with_app(list, app), app) == with_app(list, app),
        with_app(list, app).contains(app),
        !without_app(list, app).contains(app),
        !without_app(with_app(list, app), app).contains(app),
{
    if !list.contains(app) {
        assert(list.push(app)[list.len() as int] == app);
    }
    assert forall|l: Seq<Seq<char>>| !(#[trigger] without_app(l, app)).contains(app) by {
        if without_app(l, app).contains(app) {
            let k = choose|k: int| 0 <= k < without_app(l, app).len() && without_app(l, app)[k] == app;
            l.lemma_filter_pred(|s: Seq<char>| s != app, k);
        }
    }
}

/// Changing fields of the item at position `p` other than its id keeps
/// where each id is found.
proof fn lemma_item_pos_update(items: Seq<ItemV>, p: int, x: ItemV, id: i64)
    requires
        0 <= p < items.len(),
        x.id == items[p].id,
    ensures
        first_index(items.update(p, x), id_is(id)) == first_index(items, id_is(id)),
{
    let u = items.update(p, x);
    lemma_first_index_bounds(items, id_is(id));
    let q = first_index(items, id_is(id));
    assert forall|j: int| 0 <= j < q implies !id_is(id)(#[trigger] u[j]) by {
        assert(!id_is(id)(items[j]));
    }
    lemma_first_index(u, id_is(id), q);
}

/// Setting the pin flag of an item: the item stays where it is and has the
/// flag; boards and memberships do not change.
proof fn lemma_set_pin(db: DbV, id: i64, v: bool)
    ensures
        db.set_pin(id, v).boards == db.boards,
        db.set_pin(id, v).members == db.members,
        db.set_pin(id, v).items.len() == db.items.len(),
        db.set_pin(id, v).item_pos(id) == db.item_pos(id),
        db.item_pos(id) < db.items.len() ==> db.set_pin(id, v).item(id) == Some(
            ItemV { is_pinned: v, ..db.items[db.item_pos(id)] },
        ),
{
    let p = db.item_pos(id);
    lemma_first_index_bounds(db.items, id_is(id));
    if p < db.items.len() {
        lemma_item_pos_update(db.items, p, ItemV { is_pinned: v, ..db.items[p] }, id);
    }
}

/// After `add_link`, the pair is a membership; after `drop_link`, it is not.
proof fn lemma_links(m: Seq<Membership>, board_id: i64, item_id: i64, now: i64)
    ensures
        has_link(add_link(m, board_id, item_id, now), board_id, item_id),
        !has_link(drop_link(m, board_id, item_id), board_id, item_id),
{
    let a = add_link(m, board_id, item_id, now);
    if !has_link(m, board_id, item_id) {
        assert(a[m.len() as int].board_id == board_id);
    }
    let d = drop_link(m, board_id, item_id);
    assert forall|k: int| 0 <= k < d.len() implies !(#[trigger] d[k].board_id == board_id && d[k].item_id
        == item_id) by {
        m.lemma_filter_pred(|x: Membership| !(x.board_id == board_id && x.item_id == item_id), k);
    }
}

/// The favorites board mirrors the pin flag: toggling the pin of an item
/// sets the flag to its new value, and the item is on the favorites board
/// exactly when it is now pinned. Toggling fails only for an unknown item.
pub proof fn law_toggle_pin_mirrors_favorites(db: DbV, id: i64, now: i64)
    requires
        db.wf(),
        db.fav_id() is Some,
    ensures
        db.toggle(id, now) is Some <==> db.has_item(id),
        db.toggle(id, now) matches Some((d, v)) ==> {
            &&& d.fav_id() == db.fav_id()
            &&& d.item(id) matches Some(x) && x.is_pinned == v
            &&& d.is_member(db.fav_id()->0, id) == v
        },
{
    let p = db.item_pos(id);
    lemma_first_index_bounds(db.items, id_is(id));
    if p < db.items.len() {
        assert(db.item_ids()[p] == id);
    } else {
        assert forall|j: int| 0 <= j < db.item_ids().len() implies db.item_ids()[j] != id by {
            assert(!id_is(id)(db.items[j]));
        }
    }
    if p < db.items.len() {
        let f = db.fav_id()->0;
        let v = !db.items[p].is_pinned;
        lemma_set_pin(db, id, v);
        let d = db.set_pin(id, v);
        lemma_links(d.members, f, id, now);
        let e = (db.toggle(id, now)->0).0;
        assert(e.boards == db.boards);
        lemma_item_pos_update(db.items, p, ItemV { is_pinned: v, ..db.items[p] }, id);
        assert(e.items == d.items);
        assert(e.item_pos(id) == p);
        assert(e.is_member(f, id) == has_link(e.members, f, id));
    }
}

/// Adding an item to the favorites board pins it; removing it from the
/// favorites board unpins it. Either way the membership follows.
pub proof fn law_favorites_board_sets_pin(db: DbV, item_id: i64, now: i64)
    requires
        db.wf(),
        db.fav_id() is Some,
    ensures
        db.join(db.fav_id()->0, item_id, now).is_member(db.fav_id()->0, item_id),
        db.has_item(item_id) ==> (db.join(db.fav_id()->0, item_id, now).item(item_id) matches Some(x)
            && x.is_pinned),
        !db.leave(db.fav_id()->0, item_id).is_member(db.fav_id()->0, item_id),
        db.has_item(item_id) ==> (db.leave(db.fav_id()->0, item_id).item(item_id) matches Some(x)
            && !x.is_pinned),
{
    let f = db.fav_id()->0;
    let p = db.item_pos(item_id);
    lemma_first_index_bounds(db.items, id_is(item_id));
    lemma_links(db.members, f, item_id, now);
    let j = db.with_members(add_link(db.members, f, item_id, now));
    let l = db.with_members(drop_link(db.members, f, item_id));
    lemma_set_pin(j, item_id, true);
    lemma_set_pin(l, item_id, false);
    assert(j.set_pin(item_id, true).is_member(f, item_id) == has_link(j.members, f, item_id));
    assert(l.set_pin(item_id, false).is_member(f, item_id) == has_link(l.members, f, item_id));
    if db.has_item(item_id) {
        let w = choose|w: int| 0 <= w < db.item_ids().len() && db.item_ids()[w] == item_id;
        assert(id_is(item_id)(db.items[w]));
        assert(p < db.items.len());
    }
}

/// Built-in boards are neither deleted nor renamed; deleting a user board
/// removes it and all its memberships, and keeps the other boards.
pub proof fn law_delete_board(db: DbV, id: i64, f: spec_fn(BoardV) -> BoardV)
    requires
        db.wf(),
    ensures
        (exists|k: int| 0 <= k < db.boards.len() && #[trigger] db.boards[k].id == id && db.boards[k].is_builtin)
            ==> db.drop_board(id) == db && db.edit_board(id, f, true) == db,
        (exists|k: int| 0 <= k < db.boards.len() && #[trigger] db.boards[k].id == id && !db.boards[k].is_builtin)
            ==> {
            &&& !db.drop_board(id).has_board(id)
            &&& forall|j: int|
                0 <= j < db.drop_board(id).members.len() ==> (#[trigger] db.drop_board(id).members[j]).board_id != id
            &&& forall|b: i64| b != id ==> (db.drop_board(id).has_board(b) <==> db.has_board(b))
        },
{
    let pred = crate::db::boards::board_id_is(id);
    lemma_first_index_bounds(db.boards, pred);
    let p = db.board_pos(id);
    let ids = db.board_ids();
    if exists|k: int| 0 <= k < db.boards.len() && #[trigger] db.boards[k].id == id {
        let k = choose|k: int| 0 <= k < db.boards.len() && #[trigger] db.boards[k].id == id;
        assert(ids[k] == id);
        assert(pred(db.boards[k]));
        if p < k {
            assert(pred(db.boards[p]));
            assert(ids[p] == id);
            assert(ids[p] < ids[k]);
        }
        assert(p == k);
        assert forall|k2: int| 0 <= k2 < db.boards.len() && #[trigger] db.boards[k2].id == id implies k2 == k by {
            assert(ids[k2] == id);
            if k2 < k {
                assert(ids[k2] < ids[k]);
            }
            if k < k2 {
                assert(ids[k] < ids[k2]);
            }
        }
        if !db.boards[k].is_builtin {
            let d = db.drop_board(id);
            lemma_ids_remove(ids, db.board_seq, p);
            assert(d.board_ids() =~= ids.remove(p));
            assert forall|j: int| 0 <= j < d.members.len() implies (#[trigger] d.members[j]).board_id != id by {
                db.members.lemma_filter_pred(|m: Membership| m.board_id != id, j);
            }
        } else {
            assert(db.drop_board(id) == db);
            assert(db.edit_board(id, f, true) == db);
        }
    }
}

/// Reordering boards changes only the sort order of user boards: built-in
/// boards stay as they are, and every board keeps its id, name and color.
pub proof fn law_reorder_keeps_builtin(boards: Seq<BoardV>, ids: Seq<i64>, n: int)
    requires
        0 <= n <= ids.len(),
    ensures
        crate::db::boards::reordered(boards, ids, n).len() == boards.len(),
        forall|i: int|
            0 <= i < boards.len() ==> {
                let b = #[trigger] crate::db::boards::reordered(boards, ids, n)[i];
                &&& b.id == boards[i].id && b.name == boards[i].name && b.color == boards[i].color
                &&& b.is_builtin == boards[i].is_builtin
                &&& boards[i].is_builtin ==> b == boards[i]
            },
    decreases n,
{
    if n > 0 {
        law_reorder_keeps_builtin(boards, ids, n - 1);
    }
}

/// Editing the text of an item keeps its tag, its pin flag and its boards;
/// the item gets the new text and the hash of that text.
pub proof fn law_edit_keeps_tag_pin_boards(db: DbV, id: i64, content: Seq<char>, now: i64)
    requires
        db.wf(),
    ensures
        db.edit_content(id, content, now) matches Some(d) ==> {
            &&& d.members == db.members
            &&& d.boards == db.boards
            &&& db.item(id) matches Some(x)
            &&& d.item(id) matches Some(y)
            &&& y.tag == x.tag && y.is_pinned == x.is_pinned && y.content == content && y.content_hash
                == text_hash(content) && y.id == id
        },
{
    let p = db.item_pos(id);
    lemma_first_index_bounds(db.items, id_is(id));
    if p < db.items.len() && db.items[p].content_type == "text"@ {
        let x = db.items[p];
        lemma_item_pos_update(
            db.items,
            p,
            ItemV { content: content, content_hash: text_hash(content), updated_at: now, ..x },
            id,
        );
    }
}

/// Pinned items and items on a board never expire: expiry keeps each of
/// them unchanged.
pub proof fn law_pinned_and_board_items_never_expire(db: DbV, x: ItemV, now: i64)
    requires
        db.items.contains(x),
        x.is_pinned || db.on_board(x.id),
    ensures
        db.expire(now).items.contains(x),
{
    let i = choose|i: int| 0 <= i < db.items.len() && db.items[i] == x;
    db.items.lemma_filter_contains(|y: ItemV| !crate::db::expire::expired(db, y, now), i);
}

/// Pinned items and items on a board are never evicted by the history
/// limit: the limit applies to loose items only, and keeps the others
/// unchanged.
pub proof fn law_pinned_and_board_items_never_evicted(db: &Database, x: ItemV)
    requires
        db.wf(),
        db@.items.contains(x),
        x.is_pinned || db@.on_board(x.id),
    ensures
        db@.trimmed_history().items.contains(x),
{
    let d = db@;
    db.lemma_table_sizes();
    let i = choose|i: int| 0 <= i < d.items.len() && d.items[i] == x;
    let gone = evicted(d);
    let keys = loose_keys(d);
    let sel = |y: ItemV| !y.is_pinned && !d.on_board(y.id);
    lemma_keys_upto(d.items, d.items.len() as int, sel, true);
    lemma_key_order_total();
    keys.lemma_sort_by_ensures(key_order());
    let pos = gone.map_values(|k: SortKey| k.3 as int);
    if pos.contains(i) {
        let j = choose|j: int| 0 <= j < pos.len() && #[trigger] pos[j] == i;
        let k = gone[j];
        assert(sorted_keys(keys).contains(k)) by {
            let s = sorted_keys(keys);
            assert(s.len() == keys.len()) by {
                assert(s.to_multiset().len() == keys.to_multiset().len());
            }
            assert(s[j] == k);
        }
        assert(keys.contains(k));
        assert(!sel(d.items[k.3 as int]));
    }
    lemma_keep_where(d.items, d.items.len() as int, survives(gone));
}

/// Copying again a text that is already in the history adds no item and
/// uses no new id.
pub proof fn law_recopy_adds_no_item(
    db: DbV,
    content: Seq<char>,
    source_app: Option<Seq<char>>,
    source_app_name: Option<Seq<char>>,
    now: i64,
)
    requires
        db.wf(),
        exists|i: int| 0 <= i < db.items.len() && (#[trigger] db.items[i]).content_hash == text_hash(content),
    ensures
        db.record_text(content, source_app, source_app_name, now) matches Some(d) && d.items.len()
            <= db.items.len() && d.item_seq == db.item_seq,
{
    let h = text_hash(content);
    lemma_first_index_bounds(db.items, hash_is(h));
    let i = choose|i: int| 0 <= i < db.items.len() && (#[trigger] db.items[i]).content_hash == h;
    assert(hash_is(h)(db.items[i]));
    let p = first_index(db.items, hash_is(h));
    let t = db.with_items(db.items.update(p, crate::db::items::touched(db.items[p], now)));
    lemma_keep_where(t.items, t.items.len() as int, survives(evicted(t)));
}

/// Whether every item of an import (among the first `n`) has the hash of
/// an item in the list.
pub open spec fn all_known(items: Seq<ItemV>, its: Seq<ExportItemV>, n: int) -> bool {
    forall|k: int|
        0 <= k < n ==> exists|i: int|
            0 <= i < items.len() && (#[trigger] items[i]).content_hash == (#[trigger] its[k]).content_hash
}

/// Importing items that are all already known (by hash) adds no item and
/// leaves the items as they were.
pub proof fn law_import_known_items_adds_none(db: DbV, its: Seq<ExportItemV>, n: int, now: i64)
    requires
        0 <= n <= its.len(),
        all_known(db.items, its, n),
    ensures
        import_items(db, its, n, now) matches Some((d, c)) && c == 0 && d.items == db.items && d.item_seq
            == db.item_seq,
    decreases n,
{
    if n > 0 {
        law_import_known_items_adds_none(db, its, n - 1, now);
        let d = (import_items(db, its, n - 1, now)->0).0;
        let h = its[n - 1].content_hash;
        lemma_first_index_bounds(d.items, hash_is(h));
        let i = choose|i: int|
            0 <= i < db.items.len() && (#[trigger] db.items[i]).content_hash == its[n - 1].content_hash;
        assert(hash_is(h)(d.items[i]));
    }
}

/// After an import, every imported item is known by its hash.
proof fn lemma_import_makes_known(db: DbV, its: Seq<ExportItemV>, n: int, now: i64)
    requires
        0 <= n <= its.len(),
    ensures
        import_items(db, its, n, now) matches Some((d, c)) ==> all_known(d.items, its, n),
    decreases n,
{
    if n > 0 {
        lemma_import_makes_known(db, its, n - 1, now);
        if let Some((d, c)) = import_items(db, its, n - 1, now) {
            let h = its[n - 1].content_hash;
            lemma_first_index_bounds(d.items, hash_is(h));
            let p = first_index(d.items, hash_is(h));
            if p >= d.items.len() && d.item_seq != i64::MAX {
                let e = (import_items(db, its, n, now)->0).0;
                assert(e.items == d.items.push(crate::db::transfer::imported_item((d.item_seq + 1) as i64, its[n - 1])));
                assert forall|k: int| 0 <= k < n implies exists|i: int|
                    0 <= i < e.items.len() && (#[trigger] e.items[i]).content_hash == (#[trigger] its[k]).content_hash by {
                    if k < n - 1 {
                        let i = choose|i: int|
                            0 <= i < d.items.len() && (#[trigger] d.items[i]).content_hash == its[k].content_hash;
                        assert(e.items[i] == d.items[i]);
                    } else {
                        assert(e.items[d.items.len() as int].content_hash == h);
                    }
                }
            }
        }
    }
}

/// Importing rules and boards leaves the items as they are.
proof fn lemma_import_rules_boards_keep_items(db: DbV, rs: Seq<crate::model::ExportTagRuleV>, bs: Seq<crate::model::ExportBoardV>, n: int, m: int, now: i64)
    ensures
        import_rules(db, rs, n).items == db.items,
        import_rules(db, rs, n).item_seq == db.item_seq,
        import_boards(db, bs, m, now).items == db.items,
        import_boards(db, bs, m, now).item_seq == db.item_seq,
    decreases n, m,
{
    if n > 0 {
        lemma_import_rules_boards_keep_items(db, rs, bs, n - 1, m, now);
    }
    if m > 0 {
        lemma_import_rules_boards_keep_items(db, rs, bs, n, m - 1, now);
    }
}

/// Importing a database's own export back into it adds no item and leaves
/// the items as they were.
pub proof fn law_reimport_own_export_adds_nothing(
    db: DbV,
    rs: Seq<crate::model::ExportTagRuleV>,
    bs: Seq<crate::model::ExportBoardV>,
    now: i64,
)
    ensures
        db.import(db.items.map_values(|x: ItemV| crate::db::transfer::exported(db, x)), rs, bs, now) matches Some((
            d,
            c,
        )) && c == 0 && d.items == db.items,
{
    let its = db.items.map_values(|x: ItemV| crate::db::transfer::exported(db, x));
    let d1 = import_rules(db, rs, rs.len() as int);
    let d2 = import_boards(d1, bs, bs.len() as int, now);
    lemma_import_rules_boards_keep_items(db, rs, bs, rs.len() as int, 0, now);
    lemma_import_rules_boards_keep_items(d1, rs, bs, 0, bs.len() as int, now);
    assert forall|k: int| 0 <= k < its.len() implies exists|i: int|
        0 <= i < d2.items.len() && (#[trigger] d2.items[i]).content_hash == (#[trigger] its[k]).content_hash by {
        assert(d2.items[k].content_hash == its[k].content_hash);
    }
    law_import_known_items_adds_none(d2, its, its.len() as int, now);
}

/// Whether no two items share a content hash.
pub open spec fn hashes_distinct(items: Seq<ItemV>) -> bool {
    forall|i: int, j: int| 0 <= i < j < items.len() ==> (#[trigger] items[i]).content_hash != (#[trigger] items[j]).content_hash
}

/// Importing items with distinct hashes, none of them known, adds each of
/// them in order with the next ids.
proof fn lemma_import_fresh(db: DbV, its: Seq<ExportItemV>, n: int, now: i64)
    requires
        0 <= n <= its.len(),
        db.items.len() == 0,
        db.item_seq + n <= i64::MAX,
        forall|i: int, j: int| 0 <= i < j < its.len() ==> (#[trigger] its[i]).content_hash != (#[trigger] its[j]).content_hash,
    ensures
        import_items(db, its, n, now) matches Some((d, c)) && c == n && d.items.len() == n && d.item_seq
            == db.item_seq + n && forall|k: int|
            0 <= k < n ==> #[trigger] d.items[k] == crate::db::transfer::imported_item(
                (db.item_seq + k + 1) as i64,
                its[k],
            ),
    decreases n,
{
    if n > 0 {
        lemma_import_fresh(db, its, n - 1, now);
        let d = (import_items(db, its, n - 1, now)->0).0;
        let h = its[n - 1].content_hash;
        assert forall|j: int| 0 <= j < d.items.len() implies !hash_is(h)(#[trigger] d.items[j]) by {
            assert(d.items[j].content_hash == its[j].content_hash);
        }
        lemma_first_index(d.items, hash_is(h), d.items.len() as int);
    }
}

/// Importing a database's export into a database that has no items gives
/// back its items, in order and field for field, with new ids (when no two
/// of them share a content hash, and the new ids fit).
pub proof fn law_export_import_round_trip(
    db: DbV,
    target: DbV,
    rs: Seq<crate::model::ExportTagRuleV>,
    bs: Seq<crate::model::ExportBoardV>,
    now: i64,
)
    requires
        target.items.len() == 0,
        hashes_distinct(db.items),
        target.item_seq + db.items.len() <= i64::MAX,
    ensures
        target.import(db.items.map_values(|x: ItemV| crate::db::transfer::exported(db, x)), rs, bs, now) matches Some((
            d,
            c,
        )) && c == db.items.len() && d.items.len() == db.items.len() && forall|k: int|
            0 <= k < db.items.len() ==> #[trigger] d.items[k] == (ItemV { id: d.items[k].id, ..db.items[k] }),
{
    let its = db.items.map_values(|x: ItemV| crate::db::transfer::exported(db, x));
    let d1 = import_rules(target, rs, rs.len() as int);
    let d2 = import_boards(d1, bs, bs.len() as int, now);
    lemma_import_rules_boards_keep_items(target, rs, bs, rs.len() as int, 0, now);
    lemma_import_rules_boards_keep_items(d1, rs, bs, 0, bs.len() as int, now);
    assert forall|i: int, j: int| 0 <= i < j < its.len() implies (#[trigger] its[i]).content_hash != (#[trigger] its[j]).content_hash by {
        assert(its[i].content_hash == db.items[i].content_hash);
        assert(its[j].content_hash == db.items[j].content_hash);
    }
    lemma_import_fresh(d2, its, its.len() as int, now);
    let d = (import_items(d2, its, its.len() as int, now)->0).0;
    assert forall|k: int| 0 <= k < db.items.len() implies #[trigger] d.items[k] == (ItemV { id: d.items[k].id, ..db.items[k] }) by {
        assert(its[k] == crate::db::transfer::exported(db, db.items[k]));
    }
}

/// Importing the same data a second time adds no item and leaves the
/// items as the first import left them.
pub proof fn law_import_twice_adds_nothing(
    db: DbV,
    its: Seq<ExportItemV>,
    rs: Seq<crate::model::ExportTagRuleV>,
    bs: Seq<crate::model::ExportBoardV>,
    now: i64,
    later: i64,
)
    ensures
        db.import(its, rs, bs, now) matches Some((d, c)) ==> (d.import(its, rs, bs, later) matches Some((
            e,
            c2,
        )) && c2 == 0 && e.items == d.items),
{
    let d1 = import_rules(db, rs, rs.len() as int);
    let d2 = import_boards(d1, bs, bs.len() as int, now);
    lemma_import_makes_known(d2, its, its.len() as int, now);
    if let Some((d, c)) = db.import(its, rs, bs, now) {
        let e1 = import_rules(d, rs, rs.len() as int);
        let e2 = import_boards(e1, bs, bs.len() as int, later);
        lemma_import_rules_boards_keep_items(d, rs, bs, rs.len() as int, 0, later);
        lemma_import_rules_boards_keep_items(e1, rs, bs, 0, bs.len() as int, later);
        law_import_known_items_adds_none(e2, its, its.len() as int, later);
    }
}

/// How many positions below `n` satisfy `p`.
pub open spec fn count_pos(n: int, p: spec_fn(int) -> bool) -> nat
    decreases n,
{
    if n <= 0 {
        0
    } else {
        count_pos(n - 1, p) + if p(n - 1) {
            1nat
        } else {
            0nat
        }
    }
}

proof fn lemma_count_congr(n: int, p: spec_fn(int) -> bool, q: spec_fn(int) -> bool)
    requires
        forall|i: int| 0 <= i < n ==> #[trigger] p(i) == q(i),
    ensures
        count_pos(n, p) == count_pos(n, q),
    decreases n,
{
    if n > 0 {
        lemma_count_congr(n - 1, p, q);
    }
}

proof fn lemma_count_split(
    n: int,
    a: spec_fn(int) -> bool,
    both: spec_fn(int) -> bool,
    only: spec_fn(int) -> bool,
    b: spec_fn(int) -> bool,
)
    requires
        forall|i: int| #[trigger] both(i) == (a(i) && b(i)),
        forall|i: int| #[trigger] only(i) == (a(i) && !b(i)),
    ensures
        count_pos(n, a) == count_pos(n, both) + count_pos(n, only),
    decreases n,
{
    if n > 0 {
        lemma_count_split(n - 1, a, both, only, b);
        assert(both(n - 1) == (a(n - 1) && b(n - 1)));
        assert(only(n - 1) == (a(n - 1) && !b(n - 1)));
    }
}

/// Positions listed without repetition, all below `n`, are counted once
/// each.
proof fn lemma_count_members(ps: Seq<int>, n: int)
    requires
        ps.no_duplicates(),
        forall|k: int| 0 <= k < ps.len() ==> 0 <= #[trigger] ps[k] < n,
    ensures
        count_pos(n, |i: int| ps.contains(i)) == ps.len(),
    decreases n,
{
    if n <= 0 {
        if ps.len() > 0 {
            assert(0 <= ps[0] < n);
        }
    } else if ps.contains(n - 1) {
        let j = choose|j: int| 0 <= j < ps.len() && ps[j] == n - 1;
        let qs = ps.remove(j);
        assert forall|k: int| 0 <= k < qs.len() implies 0 <= #[trigger] qs[k] < n - 1 by {
            if k < j {
                assert(qs[k] == ps[k]);
                assert(ps[k] != ps[j]);
            } else {
                assert(qs[k] == ps[k + 1]);
                assert(ps[k + 1] != ps[j]);
            }
        }
        assert(qs.no_duplicates()) by {
            assert forall|a: int, b: int| 0 <= a < qs.len() && 0 <= b < qs.len() && a != b implies qs[a] != qs[b] by {
                let a2 = if a < j { a } else { a + 1 };
                let b2 = if b < j { b } else { b + 1 };
                assert(qs[a] == ps[a2] && qs[b] == ps[b2]);
            }
        }
        lemma_count_members(qs, n - 1);
        let pp = |x: int| ps.contains(x);
        let qq = |x: int| qs.contains(x);
        assert forall|i: int| 0 <= i < n - 1 implies #[trigger] pp(i) == qq(i) by {
            if ps.contains(i) {
                let k = choose|k: int| 0 <= k < ps.len() && ps[k] == i;
                assert(k != j);
                if k < j {
                    assert(qs[k] == i);
                } else {
                    assert(qs[k - 1] == i);
                }
            }
            if qs.contains(i) {
                let k = choose|k: int| 0 <= k < qs.len() && qs[k] == i;
                if k < j {
                    assert(ps[k] == i);
                } else {
                    assert(ps[k + 1] == i);
                }
            }
        }
        lemma_count_congr(n - 1, pp, qq);
    } else {
        assert forall|k: int| 0 <= k < ps.len() implies 0 <= #[trigger] ps[k] < n - 1 by {
            assert(ps[k] != n - 1);
        }
        lemma_count_members(ps, n - 1);
    }
}

/// The number of keys of selected items is the number of selected
/// positions; the keys come in increasing position.
proof fn lemma_keys_count(items: Seq<ItemV>, n: int, sel: spec_fn(ItemV) -> bool, asc: bool)
    requires
        0 <= n <= items.len(),
        items.len() <= usize::MAX,
    ensures
        keys_upto(items, n, sel, item_key(asc)).len() == count_pos(n, |i: int| sel(items[i])),
        forall|a: int, b: int|
            0 <= a < b < keys_upto(items, n, sel, item_key(asc)).len() ==> (#[trigger] keys_upto(
                items,
                n,
                sel,
                item_key(asc),
            )[a]).3 < (#[trigger] keys_upto(items, n, sel, item_key(asc))[b]).3,
    decreases n,
{
    if n > 0 {
        lemma_keys_count(items, n - 1, sel, asc);
        lemma_keys_upto(items, n - 1, sel, asc);
        let r = keys_upto(items, n - 1, sel, item_key(asc));
        let t = keys_upto(items, n, sel, item_key(asc));
        if sel(items[n - 1]) {
            assert forall|a: int, b: int| 0 <= a < b < t.len() implies (#[trigger] t[a]).3 < (#[trigger] t[b]).3 by {
                if b == t.len() - 1 {
                    assert(r.contains(t[a]));
                } else {
                    assert(t[a] == r[a] && t[b] == r[b]);
                }
            }
        }
    }
}

/// Counting selected items among those kept.
proof fn lemma_keep_count(items: Seq<ItemV>, n: int, keep: spec_fn(int) -> bool, sel: spec_fn(ItemV) -> bool)
    requires
        0 <= n <= items.len(),
    ensures
        count_pos(keep_where(items, n, keep).len() as int, |i: int| sel(keep_where(items, n, keep)[i]))
            == count_pos(n, |i: int| keep(i) && sel(items[i])),
    decreases n,
{
    if n > 0 {
        lemma_keep_count(items, n - 1, keep, sel);
        let r = keep_where(items, n - 1, keep);
        let t = keep_where(items, n, keep);
        if keep(n - 1) {
            let pt = |j: int| sel(t[j]);
            let pr = |j: int| sel(r[j]);
            assert forall|i: int| 0 <= i < r.len() implies #[trigger] pt(i) == pr(i) by {
                assert(t[i] == r[i]);
            }
            lemma_count_congr(r.len() as int, pt, pr);
            assert(t[r.len() as int] == items[n - 1]);
        }
    }
}

/// The history limit keeps the most recent loose items (those neither
/// pinned nor on a board): when the limit is not negative, exactly as many
/// loose items remain as the smaller of their number and the limit.
pub proof fn law_history_limit(db: &Database)
    requires
        db.wf(),
        max_items_limit(db@) >= 0,
    ensures
        loose_keys(db@.trimmed_history()).len() == if loose_keys(db@).len() <= max_items_limit(db@) {
            loose_keys(db@).len() as int
        } else {
            max_items_limit(db@) as int
        },
{
    let d = db@;
    db.lemma_table_sizes();
    let n = d.items.len() as int;
    let t = d.trimmed_history();
    let m = max_items_limit(d);
    let sel = |x: ItemV| !x.is_pinned && !d.on_board(x.id);
    let tsel = |x: ItemV| !x.is_pinned && !t.on_board(x.id);
    assert(t.members == d.members);
    assert forall|x: ItemV| #[trigger] tsel(x) == sel(x) by {}
    assert(tsel =~= sel);
    let keys = loose_keys(d);
    let gone = evicted(d);
    let keep = survives(gone);
    let kw = keep_where(d.items, n, keep);
    assert(t.items == kw);
    lemma_keep_where(d.items, n, keep);
    lemma_keys_count(d.items, n, sel, true);
    lemma_keys_count(kw, kw.len() as int, sel, true);
    lemma_keep_count(d.items, n, keep, sel);
    let ps = gone.map_values(|k: SortKey| k.3 as int);
    let selp = |i: int| sel(d.items[i]);
    let ka = |i: int| keep(i) && sel(d.items[i]);
    let kb = |i: int| selp(i) && !ps.contains(i);
    assert forall|i: int| 0 <= i < n implies #[trigger] ka(i) == kb(i) by {}
    lemma_count_congr(n, ka, kb);
    // The evicted positions are loose items, each listed once.
    lemma_keys_upto(d.items, n, sel, true);
    lemma_key_order_total();
    keys.lemma_sort_by_ensures(key_order());
    let sorted = sorted_keys(keys);
    assert(sorted.len() == keys.len()) by {
        assert(sorted.to_multiset().len() == keys.to_multiset().len());
    }
    assert(keys.no_duplicates());
    keys.lemma_multiset_has_no_duplicates();
    sorted.lemma_multiset_has_no_duplicates_conv();
    assert forall|k: int| 0 <= k < gone.len() implies sorted.contains(#[trigger] gone[k]) by {
        assert(sorted[k] == gone[k]);
    }
    assert forall|k: int| 0 <= k < ps.len() implies 0 <= #[trigger] ps[k] < n && selp(ps[k]) by {
        assert(sorted.contains(gone[k]));
        assert(keys.contains(gone[k]));
    }
    assert(ps.no_duplicates()) by {
        assert forall|a: int, b: int| 0 <= a < ps.len() && 0 <= b < ps.len() && a != b implies ps[a] != ps[b] by {
            assert(sorted[a] == gone[a] && sorted[b] == gone[b]);
            assert(keys.contains(gone[a]) && keys.contains(gone[b]));
        }
    }
    lemma_count_members(ps, n);
    let sa = |j: int| selp(j) && ps.contains(j);
    let sb = |j: int| ps.contains(j);
    assert forall|i: int| 0 <= i < n implies #[trigger] sa(i) == sb(i) by {
        if ps.contains(i) {
            let k = choose|k: int| 0 <= k < ps.len() && ps[k] == i;
        }
    }
    lemma_count_congr(n, sa, sb);
    lemma_count_split(n, selp, sa, kb, sb);
    let l = keys.len() as int;
    assert(count_pos(n, selp) == l);
    assert(count_pos(n, sa) == ps.len());
    assert(count_pos(n, kb) == l - ps.len());
    assert(count_pos(n, ka) == l - ps.len());
    assert(loose_keys(t) == keys_upto(kw, kw.len() as int, sel, item_key(true)));
    assert(loose_keys(t).len() == count_pos(kw.len() as int, |i: int| sel(kw[i])));
    assert(loose_keys(t).len() == l - ps.len());
    if l <= m {
        assert(ps.len() == 0);
    } else {
        assert(ps.len() == l - m);
    }
}

/// Every selected position has its key among the keys.
proof fn lemma_keys_complete(items: Seq<ItemV>, n: int, sel: spec_fn(ItemV) -> bool, asc: bool, p: int)
    requires
        0 <= p < n <= items.len(),
        sel(items[p]),
    ensures
        keys_upto(items, n, sel, item_key(asc)).contains(item_key(asc)(items[p], p)),
    decreases n,
{
    let t = keys_upto(items, n, sel, item_key(asc));
    if p == n - 1 {
        assert(t[t.len() - 1] == item_key(asc)(items[p], p));
    } else {
        lemma_keys_complete(items, n - 1, sel, asc, p);
        let r = keys_upto(items, n - 1, sel, item_key(asc));
        let j = choose|j: int| 0 <= j < r.len() && r[j] == item_key(asc)(items[p], p);
        if sel(items[n - 1]) {
            assert(t[j] == r[j]);
        }
    }
}

/// The history limit evicts the oldest loose items: an evicted item is
/// older than every loose item that stays (by the time of last use, ties
/// broken by the smaller id).
pub proof fn law_history_limit_evicts_oldest(db: &Database, p: int, q: int)
    requires
        db.wf(),
        0 <= p < db@.items.len(),
        0 <= q < db@.items.len(),
        !survives(evicted(db@))(p),
        survives(evicted(db@))(q),
        !db@.items[q].is_pinned,
        !db@.on_board(db@.items[q].id),
    ensures
        db@.items[p].updated_at < db@.items[q].updated_at || (db@.items[p].updated_at
            == db@.items[q].updated_at && db@.items[p].id < db@.items[q].id),
{
    let d = db@;
    db.lemma_table_sizes();
    let n = d.items.len() as int;
    let sel = |x: ItemV| !x.is_pinned && !d.on_board(x.id);
    let keys = loose_keys(d);
    let gone = evicted(d);
    let ps = gone.map_values(|k: SortKey| k.3 as int);
    lemma_keys_upto(d.items, n, sel, true);
    lemma_key_order_total();
    keys.lemma_sort_by_ensures(key_order());
    let sorted = sorted_keys(keys);
    assert(sorted.len() == keys.len()) by {
        assert(sorted.to_multiset().len() == keys.to_multiset().len());
    }
    // The evicted key of position p.
    assert(ps.contains(p));
    let a = choose|a: int| 0 <= a < ps.len() && #[trigger] ps[a] == p;
    assert(sorted[a] == gone[a]);
    assert(sorted.contains(gone[a]));
    assert(keys.contains(gone[a]));
    let kp = gone[a];
    assert(kp == item_key(true)(d.items[p], p));
    // The key of position q sits after all evicted keys.
    let kq = item_key(true)(d.items[q], q);
    lemma_keys_complete(d.items, n, sel, true, q);
    assert(keys.to_multiset().count(kq) > 0);
    assert(sorted.contains(kq));
    let j = choose|j: int| 0 <= j < sorted.len() && sorted[j] == kq;
    if j < gone.len() {
        assert(gone[j] == kq);
        assert(ps[j] == q);
        assert(ps.contains(q));
    }
    assert(a < j);
    assert(vstd::relations::sorted_by(sorted, key_order()));
    assert(key_order()(sorted[a], sorted[j]));
    assert(crate::keysort::key_le(sorted[a], sorted[j]));
    let ids = d.item_ids();
    assert(ids[p] == d.items[p].id && ids[q] == d.items[q].id);
    if p < q {
        assert(ids[p] < ids[q]);
    }
    if q < p {
        assert(ids[q] < ids[p]);
    }
}

/// A text with its ASCII letters in lower case.
pub open spec fn fold_all(s: Seq<char>) -> Seq<char> {
    s.map_values(|c: char| fold_ascii(c))
}

proof fn lemma_fold_char(c: char)
    ensures
        fold_ascii(fold_ascii(c)) == fold_ascii(c),
        fold_ascii(c) == '%' <==> c == '%',
        fold_ascii(c) == '_' <==> c == '_',
{
}

proof fn lemma_like_folded(p: Seq<char>, s: Seq<char>)
    ensures
        like_match(fold_all(p), fold_all(s)) == like_match(p, s),
    decreases p.len(), s.len(),
{
    let fp = fold_all(p);
    let fs = fold_all(s);
    if p.len() > 0 {
        lemma_fold_char(p[0]);
        assert(fp[0] == fold_ascii(p[0]));
        assert(fp.drop_first() =~= fold_all(p.drop_first()));
        if s.len() > 0 {
            lemma_fold_char(s[0]);
            assert(fs[0] == fold_ascii(s[0]));
            assert(fs.drop_first() =~= fold_all(s.drop_first()));
        }
        if p[0] == '%' {
            lemma_like_folded(p.drop_first(), s);
            if s.len() > 0 {
                lemma_like_folded(p, s.drop_first());
            }
        } else if p[0] == '_' {
            if s.len() > 0 {
                lemma_like_folded(p.drop_first(), s.drop_first());
            }
        } else if s.len() > 0 {
            lemma_like_folded(p.drop_first(), s.drop_first());
        }
    }
}

/// Search ignores the case of ASCII letters, in the keyword and in the
/// text: two keywords, or two texts, that differ only in the case of ASCII
/// letters find the same items.
pub proof fn law_search_ignores_ascii_case(k1: Seq<char>, k2: Seq<char>, t1: Seq<char>, t2: Seq<char>)
    requires
        fold_all(k1) == fold_all(k2),
        fold_all(t1) == fold_all(t2),
    ensures
        contains_like(k1, t1) == contains_like(k2, t2),
{
    let p1 = seq!['%'] + k1 + seq!['%'];
    let p2 = seq!['%'] + k2 + seq!['%'];
    lemma_fold_char('%');
    assert(k1.len() == fold_all(k1).len() && k2.len() == fold_all(k2).len());
    assert(p1.len() == p2.len());
    assert(fold_all(p1) =~= fold_all(p2)) by {
        assert forall|i: int| 0 <= i < p1.len() implies fold_all(p1)[i] == fold_all(p2)[i] by {
            assert(fold_all(p1)[i] == fold_ascii(p1[i]) && fold_all(p2)[i] == fold_ascii(p2[i]));
            if 1 <= i < p1.len() - 1 {
                assert(p1[i] == (seq!['%'] + k1)[i] && p2[i] == (seq!['%'] + k2)[i]);
                assert(p1[i] == k1[i - 1] && p2[i] == k2[i - 1]);
                assert(fold_all(k1)[i - 1] == fold_ascii(k1[i - 1]));
                assert(fold_all(k2)[i - 1] == fold_ascii(k2[i - 1]));
                assert(fold_all(k1)[i - 1] == fold_all(k2)[i - 1]);
            } else if i == 0 {
                assert(p1[i] == '%' && p2[i] == '%');
            } else {
                assert(p1[i] == '%' && p2[i] == '%');
            }
        }
    }
    lemma_like_folded(p1, t1);
    lemma_like_folded(p2, t2);
}

/// The running applications listed on macOS name each bundle id once.
pub proof fn law_running_apps_distinct(text: Seq<char>)
    ensures
        forall|a: int, b: int|
            0 <= a < b < crate::apps::running_apps_mac(text).len() ==> (#[trigger] crate::apps::running_apps_mac(
                text,
            )[a]).0 != (#[trigger] crate::apps::running_apps_mac(text)[b]).0,
{
    crate::apps::lemma_dedup_bundles(
        crate::apps::sort_by_name(
            crate::apps::listed_apps(text).filter(|a: (Seq<char>, Seq<char>)| !crate::apps::own_app(a.0)),
        ),
    );
}

/// Separators (whitespace and `-`) written anywhere in a card number do
/// not change the Luhn check: inserting one gives the same verdict.
pub proof fn law_luhn_ignores_separators(s: Seq<char>, i: int, c: char)
    requires
        0 <= i <= s.len(),
        !crate::detect::card_char_kept(c),
    ensures
        crate::detect::luhn_valid(s.insert(i, c)) == crate::detect::luhn_valid(s),
{
    let p = |ch: char| crate::detect::card_char_kept(ch);
    let a = s.take(i);
    let b = s.skip(i);
    assert(s =~= a + b);
    assert(s.insert(i, c) =~= (a + seq![c]) + b);
    Seq::filter_distributes_over_add(a + seq![c], b, p);
    Seq::filter_distributes_over_add(a, seq![c], p);
    Seq::filter_distributes_over_add(a, b, p);
    reveal(Seq::filter);
    assert(seq![c].filter(p) =~= Seq::<char>::empty()) by {
        let f = seq![c].filter(p);
        if f.len() > 0 {
            seq![c].lemma_filter_pred(p, 0);
            assert(f.contains(f[0]));
            seq![c].lemma_filter_contains_rev(p, f[0]);
            assert(f[0] == c);
        }
    }
    assert(crate::detect::card_clean(s.insert(i, c)) =~= crate::detect::card_clean(s));
}

/// How `add_link` and `drop_link` change which pairs are memberships.
proof fn lemma_link_pairs(m: Seq<Membership>, f: i64, id: i64, t: i64, b: i64, i: i64)
    ensures
        has_link(add_link(m, f, id, t), b, i) == (has_link(m, b, i) || (b == f && i == id)),
        has_link(drop_link(m, f, id), b, i) == (has_link(m, b, i) && !(b == f && i == id)),
{
    let a = add_link(m, f, id, t);
    lemma_links(m, f, id, t);
    if !has_link(m, f, id) {
        if has_link(a, b, i) {
            let k = choose|k: int| 0 <= k < a.len() && #[trigger] a[k].board_id == b && a[k].item_id == i;
            if k < m.len() {
                assert(a[k] == m[k]);
            }
        }
        if has_link(m, b, i) {
            let k = choose|k: int| 0 <= k < m.len() && #[trigger] m[k].board_id == b && m[k].item_id == i;
            assert(a[k] == m[k]);
        }
    }
    let pred = |x: Membership| !(x.board_id == f && x.item_id == id);
    let d = drop_link(m, f, id);
    if has_link(d, b, i) {
        let k = choose|k: int| 0 <= k < d.len() && #[trigger] d[k].board_id == b && d[k].item_id == i;
        m.lemma_filter_pred(pred, k);
        assert(d.contains(d[k]));
        m.lemma_filter_contains_rev(pred, d[k]);
        let j = choose|j: int| 0 <= j < m.len() && m[j] == d[k];
        assert(m[j].board_id == b);
    }
    if has_link(m, b, i) && !(b == f && i == id) {
        let k = choose|k: int| 0 <= k < m.len() && #[trigger] m[k].board_id == b && m[k].item_id == i;
        m.lemma_filter_contains(pred, k);
        let j = choose|j: int| 0 <= j < d.len() && d[j] == m[k];
        assert(d[j].board_id == b);
    }
}

/// Toggling a pin twice gives back the item as it was and the same
/// board memberships, when the favorites board mirrored the pin before; the
/// second toggle returns the original pin flag.
pub proof fn law_toggle_twice_restores(db: DbV, id: i64, now1: i64, now2: i64, b: i64, i: i64)
    requires
        db.wf(),
        db.fav_id() is Some,
        db.has_item(id),
        db.is_member(db.fav_id()->0, id) == (db.item(id)->0).is_pinned,
    ensures
        db.toggle(id, now1) matches Some((d1, v1)) && d1.toggle(id, now2) matches Some((d2, v2)) && v2 == (
        db.item(id)->0).is_pinned && d2.items == db.items && d2.is_member(b, i) == db.is_member(b, i),
{
    law_toggle_pin_mirrors_favorites(db, id, now1);
    let f = db.fav_id()->0;
    let p = db.item_pos(id);
    lemma_first_index_bounds(db.items, id_is(id));
    let x = db.items[p];
    let (d1, v1) = db.toggle(id, now1)->0;
    assert(v1 == !x.is_pinned);
    lemma_item_pos_update(db.items, p, ItemV { is_pinned: v1, ..x }, id);
    lemma_set_pin(db, id, v1);
    assert(d1.items == db.items.update(p, ItemV { is_pinned: v1, ..x }));
    assert(d1.boards == db.boards);
    assert(d1.fav_id() == db.fav_id());
    assert(d1.item_pos(id) == p);
    let v2 = !v1;
    lemma_set_pin(d1, id, v2);
    let (d2, w) = d1.toggle(id, now2)->0;
    assert(w == v2);
    assert(d2.items =~= db.items) by {
        assert(d2.items == d1.items.update(p, ItemV { is_pinned: v2, ..d1.items[p] }));
    }
    let m = db.members;
    lemma_link_pairs(m, f, id, now1, b, i);
    lemma_link_pairs(m, f, id, now1, f, id);
    lemma_link_pairs(add_link(m, f, id, now1), f, id, now2, b, i);
    lemma_link_pairs(drop_link(m, f, id), f, id, now2, b, i);
    assert(db.is_member(b, i) == has_link(m, b, i));
    assert(db.is_member(f, id) == has_link(m, f, id));
    assert(d2.is_member(b, i) == has_link(d2.members, b, i));
}

proof fn lemma_adopt_links(m: Seq<Membership>, items: Seq<ItemV>, n: int, f: i64, t: i64)
    requires
        0 <= n <= items.len(),
    ensures
        forall|k: int| 0 <= k < n && (#[trigger] items[k]).is_pinned ==> has_link(adopt_pinned(m, items, n, f, t), f, items[k].id),
        forall|b: i64, i: i64| has_link(m, b, i) ==> #[trigger] has_link(adopt_pinned(m, items, n, f, t), b, i),
    decreases n,
{
    if n > 0 {
        lemma_adopt_links(m, items, n - 1, f, t);
        let r = adopt_pinned(m, items, n - 1, f, t);
        if items[n - 1].is_pinned {
            assert forall|b: i64, i: i64| has_link(r, b, i) implies #[trigger] has_link(add_link(r, f, items[n - 1].id, t), b, i) by {
                lemma_link_pairs(r, f, items[n - 1].id, t, b, i);
            }
            assert forall|k: int| 0 <= k < n && (#[trigger] items[k]).is_pinned implies has_link(add_link(r, f, items[n - 1].id, t), f, items[k].id) by {
                lemma_link_pairs(r, f, items[n - 1].id, t, f, items[k].id);
            }
        }
    }
}

proof fn lemma_adopt_noop(m: Seq<Membership>, items: Seq<ItemV>, n: int, f: i64, t: i64)
    requires
        0 <= n <= items.len(),
        forall|k: int| 0 <= k < n && (#[trigger] items[k]).is_pinned ==> has_link(m, f, items[k].id),
    ensures
        adopt_pinned(m, items, n, f, t) == m,
    decreases n,
{
    if n > 0 {
        lemma_adopt_noop(m, items, n - 1, f, t);
    }
}

/// Making sure of the favorites board leaves a built-in board (unless none
/// existed and no board id is left), the favorites board being the built-in
/// board with the smallest id; a missing one is added as `收藏夹` with color
/// `#f5c518` and sort order 0; no built-in board is named `收藏` afterwards;
/// and every pinned item is on the favorites board.
pub proof fn law_favorites_board_made_sure(db: DbV, now: i64)
    requires
        db.wf(),
    ensures
        (db.fav_id() is Some || db.board_seq < i64::MAX) ==> db.with_favorites(now).fav_id() is Some,
        db.fav_id() is None && db.board_seq < i64::MAX ==> db.with_favorites(now).boards == db.boards.push(
            BoardV {
                id: (db.board_seq + 1) as i64,
                name: fav_name(),
                color: "#f5c518"@,
                sort_order: 0,
                is_builtin: true,
                created_at: now,
            },
        ),
        forall|k: int|
            0 <= k < db.with_favorites(now).boards.len() && (#[trigger] db.with_favorites(now).boards[k]).is_builtin
                ==> db.with_favorites(now).boards[k].name != "收藏"@,
        db.with_favorites(now).fav_id() matches Some(f) ==> {
            &&& forall|k: int|
                0 <= k < db.with_favorites(now).boards.len() && (#[trigger] db.with_favorites(now).boards[k]).is_builtin
                    ==> f <= db.with_favorites(now).boards[k].id
            &&& forall|k: int|
                0 <= k < db.with_favorites(now).items.len() && (#[trigger] db.with_favorites(now).items[k]).is_pinned
                    ==> db.with_favorites(now).is_member(f, db.with_favorites(now).items[k].id)
        },
{
    let d1 = db.with_favorites(now);
    let n = db.items.len() as int;
    let builtin = |b: BoardV| b.is_builtin;
    lemma_first_index_bounds(db.boards, builtin);
    reveal_strlit("收藏");
    reveal_strlit("收藏夹");
    assert("收藏"@ != fav_name()) by {
        assert("收藏"@.len() != "收藏夹"@.len());
    }
    let ids = db.board_ids();
    if db.fav_pos() < db.boards.len() {
        let p = db.fav_pos();
        let f = db.boards[p].id;
        assert forall|j: int| 0 <= j < p implies !builtin(#[trigger] d1.boards[j]) by {
            assert(!builtin(db.boards[j]));
        }
        lemma_first_index(d1.boards, builtin, p);
        assert(d1.fav_id() == Some(f));
        assert forall|k: int| 0 <= k < d1.boards.len() && (#[trigger] d1.boards[k]).is_builtin implies f
            <= d1.boards[k].id by {
            if k < p {
                assert(!builtin(db.boards[k]));
            }
            if p < k {
                assert(ids[p] < ids[k]);
            }
        }
        lemma_adopt_links(db.members, db.items, n, f, now);
        assert forall|k: int| 0 <= k < d1.items.len() && (#[trigger] d1.items[k]).is_pinned implies d1.is_member(
            f,
            d1.items[k].id,
        ) by {
            assert(has_link(d1.members, f, db.items[k].id));
        }
    } else if db.board_seq != i64::MAX {
        let f = (db.board_seq + 1) as i64;
        let p = db.boards.len() as int;
        assert forall|j: int| 0 <= j < p implies !builtin(#[trigger] d1.boards[j]) by {
            assert(d1.boards[j] == db.boards[j]);
            assert(!builtin(db.boards[j]));
        }
        lemma_first_index(d1.boards, builtin, p);
        assert(d1.fav_id() == Some(f));
        assert forall|k: int| 0 <= k < d1.boards.len() && (#[trigger] d1.boards[k]).is_builtin implies f
            <= d1.boards[k].id by {
            if k < p {
                assert(!builtin(d1.boards[k]));
            }
        }
        lemma_adopt_links(db.members, db.items, n, f, now);
        assert forall|k: int| 0 <= k < d1.items.len() && (#[trigger] d1.items[k]).is_pinned implies d1.is_member(
            f,
            d1.items[k].id,
        ) by {
            assert(has_link(d1.members, f, db.items[k].id));
        }
    } else {
        assert forall|k: int| 0 <= k < d1.boards.len() implies !(#[trigger] d1.boards[k]).is_builtin by {
            assert(!builtin(db.boards[k]));
        }
    }
}

/// Making sure of the favorites board a second time changes nothing.
pub proof fn law_ensure_favorites_idempotent(db: DbV, t1: i64, t2: i64)
    ensures
        db.with_favorites(t1).with_favorites(t2) == db.with_favorites(t1),
{
    let d1 = db.with_favorites(t1);
    let n = db.items.len() as int;
    let builtin = |b: BoardV| b.is_builtin;
    lemma_first_index_bounds(db.boards, builtin);
    let renamed = db.boards.map_values(
        |b: BoardV|
            if b.is_builtin && b.name == "收藏"@ {
                BoardV { name: fav_name(), ..b }
            } else {
                b
            },
    );
    reveal_strlit("收藏");
    reveal_strlit("收藏夹");
    assert("收藏"@ != fav_name()) by {
        assert("收藏"@.len() != "收藏夹"@.len());
    }
    if db.fav_pos() < db.boards.len() {
        let p = db.fav_pos();
        let f = db.boards[p].id;
        assert(d1.boards == renamed);
        assert forall|j: int| 0 <= j < p implies !builtin(#[trigger] renamed[j]) by {
            assert(!builtin(db.boards[j]));
        }
        lemma_first_index(renamed, builtin, p);
        assert(d1.fav_pos() == p);
        assert(d1.boards[p].id == f);
        assert(d1.boards.map_values(
            |b: BoardV|
                if b.is_builtin && b.name == "收藏"@ {
                    BoardV { name: fav_name(), ..b }
                } else {
                    b
                },
        ) =~= d1.boards);
        lemma_adopt_links(db.members, db.items, n, f, t1);
        lemma_adopt_noop(d1.members, d1.items, n, f, t2);
        assert(d1.with_favorites(t2) =~= d1);
    } else if db.board_seq != i64::MAX {
        let f = (db.board_seq + 1) as i64;
        let p = db.boards.len() as int;
        assert forall|j: int| 0 <= j < p implies !builtin(#[trigger] d1.boards[j]) by {
            assert(d1.boards[j] == db.boards[j]);
            assert(!builtin(db.boards[j]));
        }
        lemma_first_index(d1.boards, builtin, p);
        assert(d1.fav_pos() == p);
        assert(d1.boards.map_values(
            |b: BoardV|
                if b.is_builtin && b.name == "收藏"@ {
                    BoardV { name: fav_name(), ..b }
                } else {
                    b
                },
        ) =~= d1.boards) by {
            assert forall|j: int| 0 <= j < p implies !(#[trigger] d1.boards[j]).is_builtin by {
                assert(!builtin(d1.boards[j]));
            }
        }
        lemma_adopt_links(db.members, db.items, n, f, t1);
        lemma_adopt_noop(d1.members, d1.items, n, f, t2);
        assert(d1.with_favorites(t2) =~= d1);
    }
}

/// Whether no two boards share a name.
pub open spec fn board_names_distinct(boards: Seq<BoardV>) -> bool {
    forall|i: int, j: int| 0 <= i < j < boards.len() ==> (#[trigger] boards[i]).name != (#[trigger] boards[j]).name
}

proof fn lemma_board_by_name_found(boards: Seq<BoardV>, pos: int)
    requires
        0 <= pos < boards.len(),
        board_names_distinct(boards),
    ensures
        crate::db::transfer::board_by_name(boards, boards[pos].name) == Some(boards[pos].id),
    decreases boards.len(),
{
    if pos < boards.len() - 1 {
        let d = boards.drop_last();
        assert(boards.last().name != boards[pos].name);
        assert forall|i: int, j: int| 0 <= i < j < d.len() implies (#[trigger] d[i]).name != (#[trigger] d[j]).name by {
            assert(d[i] == boards[i] && d[j] == boards[j]);
        }
        lemma_board_by_name_found(d, pos);
        assert(d[pos] == boards[pos]);
    }
}

proof fn lemma_import_rules_noop(db: DbV, rs: Seq<crate::model::ExportTagRuleV>, n: int)
    requires
        0 <= n <= rs.len(),
        forall|k: int| 0 <= k < n ==> crate::db::transfer::has_rule_named(db.rules, (#[trigger] rs[k]).0),
    ensures
        import_rules(db, rs, n) == db,
    decreases n,
{
    if n > 0 {
        lemma_import_rules_noop(db, rs, n - 1);
        assert(crate::db::transfer::has_rule_named(db.rules, rs[n - 1].0));
    }
}

proof fn lemma_import_boards_noop(db: DbV, bs: Seq<crate::model::ExportBoardV>, n: int, now: i64)
    requires
        0 <= n <= bs.len(),
        forall|k: int| 0 <= k < n ==> (#[trigger] bs[k]).3 || crate::db::transfer::has_board_named(db.boards, bs[k].0),
    ensures
        import_boards(db, bs, n, now) == db,
    decreases n,
{
    if n > 0 {
        lemma_import_boards_noop(db, bs, n - 1, now);
        assert(bs[n - 1].3 || crate::db::transfer::has_board_named(db.boards, bs[n - 1].0));
    }
}

proof fn lemma_import_links_noop(
    m: Seq<Membership>,
    names: Seq<Seq<char>>,
    n: int,
    boards: Seq<BoardV>,
    id: i64,
    now: i64,
)
    requires
        0 <= n <= names.len(),
        forall|j: int|
            0 <= j < n ==> (crate::db::transfer::board_by_name(boards, #[trigger] names[j]) matches Some(b)
                ==> has_link(m, b, id)),
    ensures
        crate::db::transfer::import_links(m, names, n, boards, id, now) == m,
    decreases n,
{
    if n > 0 {
        lemma_import_links_noop(m, names, n - 1, boards, id, now);
        let x = names[n - 1];
        assert(crate::db::transfer::board_by_name(boards, x) matches Some(b) ==> has_link(m, b, id));
    }
}

/// Each board named in an item's export is found by its name, and the item
/// is already on it.
proof fn lemma_item_boards_linked(db: DbV, id: i64, now: i64)
    requires
        db.wf(),
        board_names_distinct(db.boards),
    ensures
        crate::db::transfer::import_links(
            db.members,
            crate::db::transfer::item_boards(db, id),
            crate::db::transfer::item_boards(db, id).len() as int,
            db.boards,
            id,
            now,
        ) == db.members,
{
    let pred = |mm: Membership| mm.item_id == id;
    let fm = db.members.filter(pred);
    let names = crate::db::transfer::item_boards(db, id);
    assert forall|j: int| 0 <= j < names.len() implies (crate::db::transfer::board_by_name(
        db.boards,
        #[trigger] names[j],
    ) matches Some(b) ==> has_link(db.members, b, id)) by {
        db.members.lemma_filter_pred(pred, j);
        assert(fm.contains(fm[j]));
        db.members.lemma_filter_contains_rev(pred, fm[j]);
        let w = choose|w: int| 0 <= w < db.members.len() && db.members[w] == fm[j];
        let b = fm[j].board_id;
        assert(db.board_ids().contains(db.members[w].board_id));
        let q = choose|q: int| 0 <= q < db.board_ids().len() && db.board_ids()[q] == b;
        let bp = crate::db::boards::board_id_is(b);
        lemma_first_index_bounds(db.boards, bp);
        let p = db.board_pos(b);
        assert(bp(db.boards[q]));
        if p < q {
            assert(db.board_ids()[p] < db.board_ids()[q]);
        }
        assert(p == q);
        assert(names[j] == crate::db::transfer::board_name(db, b));
        lemma_board_by_name_found(db.boards, q);
        assert(db.members[w].board_id == b && db.members[w].item_id == id);
    }
    lemma_import_links_noop(db.members, names, names.len() as int, db.boards, id, now);
}

proof fn lemma_import_own_items(db: DbV, n: int, now: i64)
    requires
        db.wf(),
        hashes_distinct(db.items),
        board_names_distinct(db.boards),
        0 <= n <= db.items.len(),
    ensures
        import_items(db, db.items.map_values(|x: ItemV| crate::db::transfer::exported(db, x)), n, now) == Some(
            (db, 0nat),
        ),
    decreases n,
{
    if n > 0 {
        let its = db.items.map_values(|x: ItemV| crate::db::transfer::exported(db, x));
        lemma_import_own_items(db, n - 1, now);
        let k = n - 1;
        let h = its[k].content_hash;
        assert(h == db.items[k].content_hash);
        assert forall|j: int| 0 <= j < k implies !hash_is(h)(#[trigger] db.items[j]) by {}
        lemma_first_index(db.items, hash_is(h), k);
        lemma_item_boards_linked(db, db.items[k].id, now);
        assert(its[k].boards == crate::db::transfer::item_boards(db, db.items[k].id));
        assert(db.with_members(db.members) == db);
    }
}

/// Importing a database's own export back into it changes nothing: no
/// item, rule, board or membership is added or altered (when no two items
/// share a content hash and no two boards share a name).
pub proof fn law_reimport_own_export_unchanged(db: &Database, now: i64)
    requires
        db.wf(),
        hashes_distinct(db@.items),
        board_names_distinct(db@.boards),
    ensures
        db@.import(
            db@.items.map_values(|x: ItemV| crate::db::transfer::exported(db@, x)),
            crate::db::rules::rule_order(db@.rules).map_values(
                |k: SortKey| {
                    let t = db@.rules[k.3 as int];
                    (t.name, t.pattern, t.color, t.priority, t.expire_days)
                },
            ),
            crate::db::boards::board_order(db@.boards).map_values(
                |k: SortKey| {
                    let b = db@.boards[k.3 as int];
                    (b.name, b.color, b.sort_order, b.is_builtin)
                },
            ),
            now,
        ) == Some((db@, 0nat)),
{
    let d = db@;
    db.lemma_table_sizes();
    lemma_key_order_total();
    let rs = crate::db::rules::rule_order(d.rules).map_values(
        |k: SortKey| {
            let t = d.rules[k.3 as int];
            (t.name, t.pattern, t.color, t.priority, t.expire_days)
        },
    );
    let bs = crate::db::boards::board_order(d.boards).map_values(
        |k: SortKey| {
            let b = d.boards[k.3 as int];
            (b.name, b.color, b.sort_order, b.is_builtin)
        },
    );
    let rk = crate::db::rules::rule_keys_upto(d.rules, d.rules.len() as int);
    crate::db::rules::lemma_rule_keys(d.rules, d.rules.len() as int);
    rk.lemma_sort_by_ensures(key_order());
    assert forall|k: int| 0 <= k < rs.len() implies crate::db::transfer::has_rule_named(d.rules, (#[trigger] rs[k]).0) by {
        let key = crate::db::rules::rule_order(d.rules)[k];
        assert(sorted_keys(rk).contains(key));
        assert(rk.contains(key));
        assert(d.rules[key.3 as int].name == rs[k].0);
    }
    let bk = crate::db::boards::board_keys_upto(d.boards, d.boards.len() as int);
    crate::db::boards::lemma_board_keys(d.boards, d.boards.len() as int);
    bk.lemma_sort_by_ensures(key_order());
    assert forall|k: int| 0 <= k < bs.len() implies (#[trigger] bs[k]).3 || crate::db::transfer::has_board_named(d.boards, bs[k].0) by {
        let key = crate::db::boards::board_order(d.boards)[k];
        assert(sorted_keys(bk).contains(key));
        assert(bk.contains(key));
        assert(d.boards[key.3 as int].name == bs[k].0);
    }
    lemma_import_rules_noop(d, rs, rs.len() as int);
    lemma_import_boards_noop(d, bs, bs.len() as int, now);
    lemma_import_own_items(d, d.items.len() as int, now);
}

// ---------- tag rules ----------

/// A tag rule with an ordinary pattern (not empty, not `builtin:`) fires on
/// a text exactly when the regular expression `^(?:pattern)$` matches it:
/// the pattern must match the whole text, not a part of it.
pub proof fn law_rule_matches_whole_text(r: crate::model::RuleV, text: Seq<char>)
    requires
        r.pattern.len() > 0,
        !crate::text::starts_with_seq(r.pattern, "builtin:"@),
    ensures
        crate::db::rules::rule_fires(r, text) == (crate::outside::spec_regex_search(
            "^(?:"@ + r.pattern + ")$"@,
            text,
        ) == Some(true)),
{
}

/// Every rule has its key among the rule keys.
proof fn lemma_rule_keys_complete(rules: Seq<crate::model::RuleV>, n: int, k: int)
    requires
        0 <= k < n <= rules.len(),
    ensures
        crate::db::rules::rule_keys_upto(rules, n).contains(crate::db::rules::rule_key(rules[k], k)),
    decreases n,
{
    let t = crate::db::rules::rule_keys_upto(rules, n);
    if k == n - 1 {
        assert(t[t.len() - 1] == crate::db::rules::rule_key(rules[k], k));
    } else {
        lemma_rule_keys_complete(rules, n - 1, k);
        let r = crate::db::rules::rule_keys_upto(rules, n - 1);
        let j = choose|j: int| 0 <= j < r.len() && r[j] == crate::db::rules::rule_key(rules[k], k);
        assert(t[j] == r[j]);
    }
}

/// A new text is tagged with the name of a rule that fires on the trimmed
/// text, and it is left untagged only when no rule fires on it.
pub proof fn law_new_text_tag(db: &Database, content: Seq<char>)
    ensures
        crate::db::rules::match_tag_spec(db@.rules, content) matches Some(name) ==> exists|k: int|
            0 <= k < db@.rules.len() && (#[trigger] db@.rules[k]).name == name && crate::db::rules::rule_fires(
                db@.rules[k],
                crate::text::trim_seq(content),
            ),
        crate::db::rules::match_tag_spec(db@.rules, content) is None ==> forall|k: int|
            0 <= k < db@.rules.len() ==> !crate::db::rules::rule_fires(
                #[trigger] db@.rules[k],
                crate::text::trim_seq(content),
            ),
{
    let rules = db@.rules;
    db.lemma_table_sizes();
    let text = crate::text::trim_seq(content);
    let order = crate::db::rules::rule_order(rules);
    let keys = crate::db::rules::rule_keys_upto(rules, rules.len() as int);
    let fires = |k: SortKey| crate::db::rules::rule_fires(rules[k.3 as int], text);
    crate::db::rules::lemma_rule_keys(rules, rules.len() as int);
    lemma_key_order_total();
    keys.lemma_sort_by_ensures(key_order());
    lemma_first_index_bounds(order, fires);
    let i = first_index(order, fires);
    if i < order.len() {
        assert(order.contains(order[i]));
        assert(keys.contains(order[i]));
        let k = order[i].3 as int;
        assert(rules[k].name == rules[k].name);
    } else {
        assert forall|k: int| 0 <= k < rules.len() implies !crate::db::rules::rule_fires(
            #[trigger] rules[k],
            text,
        ) by {
            lemma_rule_keys_complete(rules, rules.len() as int, k);
            let key = crate::db::rules::rule_key(rules[k], k);
            assert(keys.to_multiset().count(key) > 0);
            assert(order.contains(key));
            let j = choose|j: int| 0 <= j < order.len() && order[j] == key;
            assert(!fires(order[j]));
        }
    }
}

// ---------- import of rules ----------

/// Whether a stored rule has the fields of an exported rule.
pub open spec fn same_rule_fields(t: crate::model::RuleV, e: crate::model::ExportTagRuleV) -> bool {
    &&& t.name == e.0
    &&& t.pattern == e.1
    &&& t.color == e.2
    &&& t.priority == e.3
    &&& t.expire_days == e.4
}

proof fn lemma_import_boards_items_keep_rules(
    db: DbV,
    bs: Seq<crate::model::ExportBoardV>,
    its: Seq<ExportItemV>,
    m: int,
    n: int,
    now: i64,
)
    ensures
        import_boards(db, bs, m, now).rules == db.rules,
        import_items(db, its, n, now) matches Some((d, c)) ==> d.rules == db.rules,
    decreases m, n,
{
    if m > 0 {
        lemma_import_boards_items_keep_rules(db, bs, its, m - 1, n, now);
    }
    if n > 0 {
        lemma_import_boards_items_keep_rules(db, bs, its, m, n - 1, now);
    }
}

proof fn lemma_import_rules_fields(db: DbV, rs: Seq<crate::model::ExportTagRuleV>, n: int)
    requires
        0 <= n <= rs.len(),
    ensures
        import_rules(db, rs, n).rules.len() >= db.rules.len(),
        forall|j: int| 0 <= j < db.rules.len() ==> #[trigger] import_rules(db, rs, n).rules[j] == db.rules[j],
        forall|j: int|
            db.rules.len() <= j < import_rules(db, rs, n).rules.len() ==> exists|k: int|
                0 <= k < n && same_rule_fields(#[trigger] import_rules(db, rs, n).rules[j], #[trigger] rs[k]),
        db.rule_seq + n <= i64::MAX ==> forall|k: int|
            0 <= k < n ==> crate::db::transfer::has_rule_named(import_rules(db, rs, n).rules, #[trigger] rs[k].0),
        import_rules(db, rs, n).rule_seq <= db.rule_seq + n,
    decreases n,
{
    if n > 0 {
        lemma_import_rules_fields(db, rs, n - 1);
        let d = import_rules(db, rs, n - 1);
        let e = import_rules(db, rs, n);
        if !(crate::db::transfer::has_rule_named(d.rules, rs[n - 1].0) || d.rule_seq == i64::MAX) {
            assert forall|j: int| 0 <= j < db.rules.len() implies #[trigger] e.rules[j] == db.rules[j] by {
                assert(e.rules[j] == d.rules[j]);
            }
            assert forall|j: int| db.rules.len() <= j < e.rules.len() implies exists|k: int|
                0 <= k < n && same_rule_fields(#[trigger] e.rules[j], #[trigger] rs[k]) by {
                if j < d.rules.len() {
                    assert(e.rules[j] == d.rules[j]);
                    let k = choose|k: int|
                        0 <= k < n - 1 && same_rule_fields(d.rules[j], #[trigger] rs[k]);
                    assert(e.rules[j] == d.rules[j]);
                } else {
                    assert(e.rules[j].expire_days == rs[n - 1].4);
                }
            }
            if db.rule_seq + n <= i64::MAX {
                assert forall|k: int| 0 <= k < n implies crate::db::transfer::has_rule_named(e.rules, #[trigger] rs[k].0) by {
                    if k < n - 1 {
                        let w = choose|w: int| 0 <= w < d.rules.len() && (#[trigger] d.rules[w]).name == rs[k].0;
                        assert(e.rules[w] == d.rules[w]);
                    } else {
                        assert(e.rules[d.rules.len() as int].name == rs[k].0);
                    }
                }
            }
        } else if db.rule_seq + n <= i64::MAX {
            assert(d.rule_seq != i64::MAX);
        }
    }
}

/// Importing rules keeps the existing rules and adds each imported rule
/// field for field (name, pattern, color, priority, retention); every
/// imported rule name is present afterwards when enough rule ids are left.
pub proof fn law_import_keeps_rule_fields(
    db: DbV,
    its: Seq<ExportItemV>,
    rs: Seq<crate::model::ExportTagRuleV>,
    bs: Seq<crate::model::ExportBoardV>,
    now: i64,
)
    ensures
        db.import(its, rs, bs, now) matches Some((d, c)) ==> {
            &&& d.rules.len() >= db.rules.len()
            &&& forall|j: int| 0 <= j < db.rules.len() ==> #[trigger] d.rules[j] == db.rules[j]
            &&& forall|j: int|
                db.rules.len() <= j < d.rules.len() ==> exists|k: int|
                    0 <= k < rs.len() && same_rule_fields(#[trigger] d.rules[j], #[trigger] rs[k])
            &&& db.rule_seq + rs.len() <= i64::MAX ==> forall|k: int|
                0 <= k < rs.len() ==> crate::db::transfer::has_rule_named(d.rules, #[trigger] rs[k].0)
        },
{
    let d1 = import_rules(db, rs, rs.len() as int);
    lemma_import_rules_fields(db, rs, rs.len() as int);
    lemma_import_boards_items_keep_rules(d1, bs, its, bs.len() as int, 0, now);
    let d2 = import_boards(d1, bs, bs.len() as int, now);
    lemma_import_boards_items_keep_rules(d2, bs, its, 0, its.len() as int, now);
}

// ---------- retention of a content type ----------

/// An untagged text or image item whose content type has its own retention
/// setting of n days (n >= 0) expires exactly when it is loose (not pinned,
/// on no board), n > 0, and it was last used more than n days ago; n = 0
/// keeps it forever, and the default retention never applies to it.
pub proof fn law_configured_type_retention(db: DbV, x: ItemV, now: i64, ct: Seq<char>)
    requires
        ct == "text"@ || ct == "image"@,
        x.content_type == ct,
        x.tag is None,
        config_int(db, "expire_days_"@ + ct, -1i64) >= 0,
    ensures
        crate::db::expire::expired(db, x, now) == (!x.is_pinned && !db.on_board(x.id) && config_int(db, "expire_days_"@ + ct, -1i64) > 0 && (x.updated_at as int) < (now as int) - config_int(db, "expire_days_"@ + ct, -1i64) * 86400int),
{
    reveal_strlit("text");
    reveal_strlit("image");
    assert("text"@ != "image"@) by {
        assert("text"@.len() != "image"@.len());
    }
}

/// An untagged item whose content type has no retention setting of its own
/// (any type but text and image, or text or image without a setting that
/// reads as n >= 0) expires exactly when it is loose, the default retention
/// d is positive, and it was last used more than d days ago.
pub proof fn law_default_retention(db: DbV, x: ItemV, now: i64)
    requires
        x.tag is None,
        !(x.content_type == "text"@ || x.content_type == "image"@) || config_int(
            db,
            "expire_days_"@ + x.content_type,
            -1i64,
        ) < 0,
    ensures
        crate::db::expire::expired(db, x, now) == (!x.is_pinned && !db.on_board(x.id) && config_int(
            db,
            "default_expire_days"@,
            0i64,
        ) > 0 && (x.updated_at as int) < (now as int) - config_int(db, "default_expire_days"@, 0i64) * 86400int),
{
    reveal_strlit("text");
    reveal_strlit("image");
    assert("text"@ != "image"@) by {
        assert("text"@.len() != "image"@.len());
    }
}

/// A tagged item expires exactly when it is loose and some rule with its
/// tag as name has a positive retention of n days that it has outlived;
/// content-type and default retention do not apply to tagged items.
pub proof fn law_tagged_retention(db: DbV, x: ItemV, now: i64)
    requires
        x.tag is Some,
    ensures
        crate::db::expire::expired(db, x, now) == (!x.is_pinned && !db.on_board(x.id) && exists|k: int|
            0 <= k < db.rules.len() && (#[trigger] db.rules[k]).name == x.tag->0 && db.rules[k].expire_days > 0
                && (x.updated_at as int) < (now as int) - (db.rules[k].expire_days as int) * 86400int),
{
}

// ---------- identity card check ----------

/// The identity card weights are those of GB 11643: position i (counted
/// from 0) weighs 2^(17-i) mod 11.
pub proof fn law_idcard_weights(i: int)
    requires
        0 <= i < 17,
    ensures
        crate::detect::id_weights()[i] == vstd::arithmetic::power2::pow2((17 - i) as nat) % 11,
{
    vstd::arithmetic::power2::lemma2_to64();
    let w = crate::detect::id_weights();
    if i == 0 { assert(w[0] == 7); } else if i == 1 { assert(w[1] == 9); } else if i == 2 { assert(w[2] == 10); }
    else if i == 3 { assert(w[3] == 5); } else if i == 4 { assert(w[4] == 8); } else if i == 5 { assert(w[5] == 4); }
    else if i == 6 { assert(w[6] == 2); } else if i == 7 { assert(w[7] == 1); } else if i == 8 { assert(w[8] == 6); }
    else if i == 9 { assert(w[9] == 3); } else if i == 10 { assert(w[10] == 7); } else if i == 11 { assert(w[11] == 9); }
    else if i == 12 { assert(w[12] == 10); } else if i == 13 { assert(w[13] == 5); } else if i == 14 { assert(w[14] == 8); }
    else if i == 15 { assert(w[15] == 4); } else { assert(w[16] == 2); }
}

/// The identity card check character for a weighted sum with remainder r
/// (mod 11) is the digit (12 - r) mod 11, with 10 written `X`.
pub proof fn law_idcard_codes(r: int)
    requires
        0 <= r < 11,
    ensures
        crate::detect::id_codes()[r] == if (12 - r) % 11 == 10 {
            'X'
        } else {
            (('0' as int) + (12 - r) % 11) as char
        },
{
    let c = crate::detect::id_codes();
    if r == 0 { assert(c[0] == '1'); } else if r == 1 { assert(c[1] == '0'); } else if r == 2 { assert(c[2] == 'X'); }
    else if r == 3 { assert(c[3] == '9'); } else if r == 4 { assert(c[4] == '8'); } else if r == 5 { assert(c[5] == '7'); }
    else if r == 6 { assert(c[6] == '6'); } else if r == 7 { assert(c[7] == '5'); } else if r == 8 { assert(c[8] == '4'); }
    else if r == 9 { assert(c[9] == '3'); } else { assert(c[10] == '2'); }
}

// ---------- order of a new board ----------

proof fn lemma_max_user_order(boards: Seq<BoardV>, n: int)
    requires
        0 <= n <= boards.len(),
    ensures
        forall|k: int|
            0 <= k < n && !(#[trigger] boards[k]).is_builtin ==> (crate::db::boards::max_user_order(boards, n) matches Some(
                m,
            ) && boards[k].sort_order <= m),
    decreases n,
{
    if n > 0 {
        lemma_max_user_order(boards, n - 1);
    }
}

/// A new board comes after every user board: its sort order is greater
/// than that of each existing user board (when none has the largest sort
/// order an `i64` holds), and it is 1 when there are no user boards.
pub proof fn law_new_board_listed_last(boards: Seq<BoardV>)
    requires
        forall|k: int| 0 <= k < boards.len() && !(#[trigger] boards[k]).is_builtin ==> boards[k].sort_order < i64::MAX,
    ensures
        forall|k: int|
            0 <= k < boards.len() && !(#[trigger] boards[k]).is_builtin ==> boards[k].sort_order
                < crate::db::boards::next_order(boards),
        (forall|k: int| 0 <= k < boards.len() ==> (#[trigger] boards[k]).is_builtin) ==> crate::db::boards::next_order(
            boards,
        ) == 1,
{
    lemma_max_user_order(boards, boards.len() as int);
    lemma_max_user_order_found(boards, boards.len() as int);
}

proof fn lemma_max_user_order_found(boards: Seq<BoardV>, n: int)
    requires
        0 <= n <= boards.len(),
    ensures
        crate::db::boards::max_user_order(boards, n) matches Some(m) ==> exists|k: int|
            0 <= k < n && !(#[trigger] boards[k]).is_builtin && boards[k].sort_order == m,
    decreases n,
{
    if n > 0 {
        lemma_max_user_order_found(boards, n - 1);
    }
}

} // verus!
