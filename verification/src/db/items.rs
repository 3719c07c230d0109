//! History items: recording, reading, editing and removing them.

use vstd::prelude::*;
use crate::keysort::{SortKey, sort_keys, sorted_keys, key_order, lemma_key_order_total};
use crate::like::{like_chars, like_match};
use crate::model::{ClipboardItem, ItemV};
use crate::text::{chars_of, hex_lower, to_hex_lower, trim_seq, trim_str};
use crate::outside::{sha256_digest, spec_sha256};
use vstd::utf8::encode_utf8;
use super::{Database, DbV, keep_where, lemma_keep_where, lemma_keep_where_ids, first_index, id_is, ids_ok, lemma_first_index, lemma_first_index_bounds, lemma_filter_members, lemma_ids_remove, links_ok};

verus! {

/// Items newest first: by `updated_at` descending, then by id descending.
pub open spec fn desc_key(x: ItemV, pos: int) -> SortKey {
    ((-(x.updated_at as int)) as i128, (-(x.id as int)) as i128, 0, pos as usize)
}

/// Items oldest first: by `updated_at` ascending, then by id ascending.
pub open spec fn asc_key(x: ItemV, pos: int) -> SortKey {
    (x.updated_at as i128, x.id as i128, 0, pos as usize)
}

pub open spec fn item_key(asc: bool) -> spec_fn(ItemV, int) -> SortKey {
    if asc {
        |x: ItemV, pos: int| asc_key(x, pos)
    } else {
        |x: ItemV, pos: int| desc_key(x, pos)
    }
}

/// The keys of the first `n` items that `sel` selects, in row order.
pub open spec fn keys_upto(
    items: Seq<ItemV>,
    n: int,
    sel: spec_fn(ItemV) -> bool,
    key: spec_fn(ItemV, int) -> SortKey,
) -> Seq<SortKey>
    decreases n,
{
    if n <= 0 {
        Seq::empty()
    } else {
        let r = keys_upto(items, n - 1, sel, key);
        if sel(items[n - 1]) {
            r.push(key(items[n - 1], n - 1))
        } else {
            r
        }
    }
}

/// The keys of all selected items.
pub open spec fn select_keys_spec(
    items: Seq<ItemV>,
    sel: spec_fn(ItemV) -> bool,
    asc: bool,
) -> Seq<SortKey> {
    keys_upto(items, items.len() as int, sel, item_key(asc))
}

pub proof fn lemma_keys_upto(
    items: Seq<ItemV>,
    n: int,
    sel: spec_fn(ItemV) -> bool,
    asc: bool,
)
    requires
        0 <= n <= items.len(),
        items.len() <= usize::MAX,
    ensures
        forall|k: SortKey|
            #[trigger] keys_upto(items, n, sel, item_key(asc)).contains(k) ==> 0 <= k.3 < n
                && sel(items[k.3 as int]) && k == item_key(asc)(items[k.3 as int], k.3 as int),
    decreases n,
{
    if n > 0 {
        lemma_keys_upto(items, n - 1, sel, asc);
        let r = keys_upto(items, n - 1, sel, item_key(asc));
        assert forall|k: SortKey| #[trigger]
            keys_upto(items, n, sel, item_key(asc)).contains(k) implies 0 <= k.3 < n && sel(
            items[k.3 as int],
        ) && k == item_key(asc)(items[k.3 as int], k.3 as int) by {
            if sel(items[n - 1]) {
                let rp = r.push(item_key(asc)(items[n - 1], n - 1));
                let j = choose|j: int| 0 <= j < rp.len() && #[trigger] rp[j] == k;
                if j < r.len() {
                    assert(rp[j] == r[j]);
                    assert(r.contains(k));
                }
            }
        }
    }
}

/// The selected items, newest first, from position `offset` on, at most
/// `limit` of them: `ORDER BY updated_at DESC LIMIT limit OFFSET offset`,
/// with ties in `updated_at` broken by the larger id first.
pub open spec fn window_spec(items: Seq<ItemV>, sel: spec_fn(ItemV) -> bool, offset: int, limit: int) -> Seq<ItemV> {
    let s = sorted_keys(select_keys_spec(items, sel, false));
    let lo = if offset < s.len() { offset } else { s.len() as int };
    let hi = if offset + limit < s.len() { offset + limit } else { s.len() as int };
    s.subrange(lo, hi).map_values(|k: SortKey| items[k.3 as int])
}

/// Which items a query selects.
pub enum Selection {
    All,
    Pinned,
    Tagged(String),
    ContentLike(Vec<char>),
    OnBoard(i64),
    /// Items neither pinned nor on a board.
    Loose,
}

impl Selection {
    pub open spec fn holds(&self, db: DbV) -> spec_fn(ItemV) -> bool {
        match self {
            Selection::All => |x: ItemV| true,
            Selection::Pinned => |x: ItemV| x.is_pinned,
            Selection::Tagged(t) => |x: ItemV| x.tag == Some(t@),
            Selection::ContentLike(p) => |x: ItemV| like_match(p@, x.content),
            Selection::OnBoard(b) => |x: ItemV| db.is_member(*b, x.id),
            Selection::Loose => |x: ItemV| !x.is_pinned && !db.on_board(x.id),
        }
    }
}

impl Database {
    /// Whether the item is on some board.
    pub(crate) fn item_on_board(&self, item_id: i64) -> (r: bool)
        ensures
            r == self@.on_board(item_id),
    {
        let mut k: usize = 0;
        while k < self.members.len()
            invariant
                0 <= k <= self.members@.len(),
                self@.members == self.members@,
                forall|j: int| 0 <= j < k ==> (#[trigger] self.members@[j]).item_id != item_id,
            decreases self.members.len() - k,
        {
            if self.members[k].item_id == item_id {
                return true;
            }
            k = k + 1;
        }
        false
    }

    /// Whether the item is on the board.
    pub(crate) fn item_in_board(&self, board_id: i64, item_id: i64) -> (r: bool)
        ensures
            r == self@.is_member(board_id, item_id),
    {
        let mut k: usize = 0;
        while k < self.members.len()
            invariant
                0 <= k <= self.members@.len(),
                self@.members == self.members@,
                forall|j: int|
                    0 <= j < k ==> !((#[trigger] self.members@[j]).item_id == item_id
                        && self.members@[j].board_id == board_id),
            decreases self.members.len() - k,
        {
            if self.members[k].item_id == item_id && self.members[k].board_id == board_id {
                return true;
            }
            k = k + 1;
        }
        false
    }

    fn selected(&self, sel: &Selection, x: &ClipboardItem) -> (r: bool)
        ensures
            r == sel.holds(self@)(x@),
    {
        match sel {
            Selection::All => true,
            Selection::Pinned => x.is_pinned,
            Selection::Tagged(t) => {
                match &x.tag {
                    Some(xt) => *xt == *t,
                    None => false,
                }
            },
            Selection::ContentLike(p) => {
                let cs = chars_of(x.content.as_str());
                like_chars(p, &cs)
            },
            Selection::OnBoard(b) => self.item_in_board(*b, x.id),
            Selection::Loose => !x.is_pinned && !self.item_on_board(x.id),
        }
    }

    /// The keys of the selected items, in row order.
    pub(crate) fn select_keys(&self, sel: &Selection, asc: bool) -> (r: Vec<SortKey>)
        ensures
            r@ == select_keys_spec(self@.items, sel.holds(self@), asc),
    {
        let mut out: Vec<SortKey> = Vec::new();
        let mut i: usize = 0;
        while i < self.items.len()
            invariant
                0 <= i <= self.items@.len(),
                self@.items.len() == self.items@.len(),
                out@ == keys_upto(self@.items, i as int, sel.holds(self@), item_key(asc)),
            decreases self.items.len() - i,
        {
            let x = &self.items[i];
            proof {
                assert(self@.items[i as int] == x@);
            }
            if self.selected(sel, x) {
                let k: SortKey = if asc {
                    (x.updated_at as i128, x.id as i128, 0, i)
                } else {
                    (-(x.updated_at as i128), -(x.id as i128), 0, i)
                };
                out.push(k);
            }
            i = i + 1;
        }
        out
    }

    /// The selected items, newest first, skipping `offset` and keeping at
    /// most `limit`.
    pub(crate) fn window(&self, sel: &Selection, offset: u64, limit: u64) -> (r: Vec<ClipboardItem>)
        ensures
            r@.map_values(|x: ClipboardItem| x@) == window_spec(
                self@.items,
                sel.holds(self@),
                offset as int,
                limit as int,
            ),
    {
        let keys = self.select_keys(sel, false);
        let sorted = sort_keys(&keys);
        let n_items = self.items.len();
        let ghost ks = select_keys_spec(self@.items, sel.holds(self@), false);
        proof {
            lemma_key_order_total();
            ks.lemma_sort_by_ensures(key_order());
            assert(self@.items.len() == n_items);
            lemma_keys_upto(self@.items, self@.items.len() as int, sel.holds(self@), false);
            assert forall|k: SortKey| #[trigger] sorted@.contains(k) implies 0 <= k.3 < self@.items.len() by {
                if !ks.contains(k) {
                    assert(!ks.sort_by(key_order()).contains(k));
                }
                assert(ks.contains(k));
            }
        }
        let n = sorted.len();
        let lo: usize = if (offset as u128) < (n as u128) {
            offset as usize
        } else {
            n
        };
        let hi: usize = if (offset as u128) + (limit as u128) < (n as u128) {
            (offset + limit) as usize
        } else {
            n
        };
        let mut out: Vec<ClipboardItem> = Vec::new();
        let mut j: usize = lo;
        while j < hi
            invariant
                lo <= j <= hi <= n == sorted@.len(),
                sorted@ == sorted_keys(ks),
                forall|k: SortKey| #[trigger] sorted@.contains(k) ==> 0 <= k.3 < self@.items.len(),
                self@.items.len() == self.items@.len(),
                out@.map_values(|x: ClipboardItem| x@) == sorted@.subrange(lo as int, j as int).map_values(
                    |k: SortKey| self@.items[k.3 as int],
                ),
            decreases hi - j,
        {
            let k = sorted[j];
            proof {
                assert(sorted@.contains(k));
            }
            let x = self.items[k.3].duplicate();
            let ghost before = out@;
            out.push(x);
            proof {
                assert(self@.items[k.3 as int] == x@);
                assert(sorted@.subrange(lo as int, j + 1) =~= sorted@.subrange(lo as int, j as int).push(k));
                assert(out@.map_values(|x: ClipboardItem| x@) =~= before.map_values(|x: ClipboardItem| x@).push(x@));
                assert(out@.map_values(|x: ClipboardItem| x@) =~= sorted@.subrange(lo as int, j + 1).map_values(
                    |k: SortKey| self@.items[k.3 as int],
                ));
            }
            j = j + 1;
        }
        out
    }

    /// The most recently used items: `limit` of them after skipping `offset`.
    pub fn get_recent(&self, limit: u32, offset: u32) -> (r: Result<Vec<ClipboardItem>, String>)
        ensures
            r matches Ok(v) && v@.map_values(|x: ClipboardItem| x@) == window_spec(
                self@.items,
                |x: ItemV| true,
                offset as int,
                limit as int,
            ),
    {
        Ok(self.window(&Selection::All, offset as u64, limit as u64))
    }
}


/// The content hash of a text: the lower-case hex SHA-256 of its UTF-8 bytes.
pub open spec fn text_hash(s: Seq<char>) -> Seq<char> {
    hex_lower(spec_sha256(encode_utf8(s)))
}

/// The content hash of a text.
pub fn hash_text(s: &str) -> (r: String)
    ensures
        r@ == text_hash(s@),
{
    let d = sha256_digest(s.as_bytes());
    to_hex_lower(d.as_slice())
}

/// A use count plus one (held at the largest value).
pub open spec fn bump(c: i64) -> i64 {
    if c < i64::MAX {
        (c + 1) as i64
    } else {
        c
    }
}

/// An item used again at time `now`: moved to the top and counted.
pub open spec fn touched(x: ItemV, now: i64) -> ItemV {
    ItemV { updated_at: now, use_count: bump(x.use_count), last_used_at: Some(now), ..x }
}

impl DbV {
    /// The database after `touch_item(id)` at time `now`.
    pub open spec fn touch(self, id: i64, now: i64) -> DbV {
        let p = self.item_pos(id);
        if p < self.items.len() {
            self.with_items(self.items.update(p, touched(self.items[p], now)))
        } else {
            self
        }
    }

    /// The database after `set_item_tag(id, tag)`.
    pub open spec fn retag(self, id: i64, tag: Option<Seq<char>>) -> DbV {
        let p = self.item_pos(id);
        if p < self.items.len() {
            self.with_items(self.items.update(p, ItemV { tag: tag, ..self.items[p] }))
        } else {
            self
        }
    }

    /// The database after `delete_item(id)`: the item and its board
    /// memberships are gone.
    pub open spec fn delete(self, id: i64) -> DbV {
        let p = self.item_pos(id);
        let items = if p < self.items.len() {
            self.items.remove(p)
        } else {
            self.items
        };
        DbV {
            items: items,
            members: self.members.filter(|m: crate::model::Membership| m.item_id != id),
            ..self
        }
    }

    /// The item with this id, if any.
    pub open spec fn item(self, id: i64) -> Option<ItemV> {
        let p = self.item_pos(id);
        if p < self.items.len() {
            Some(self.items[p])
        } else {
            None
        }
    }
}

impl Database {
    /// The position of the item with this id (the number of items when absent).
    pub(crate) fn find_item(&self, id: i64) -> (r: usize)
        ensures
            r == self@.item_pos(id),
            r <= self@.items.len(),
            r < self@.items.len() ==> self@.items[r as int].id == id,
    {
        let mut i: usize = 0;
        while i < self.items.len()
            invariant
                0 <= i <= self.items@.len(),
                self@.items.len() == self.items@.len(),
                forall|j: int| 0 <= j < i ==> !id_is(id)(#[trigger] self@.items[j]),
            decreases self.items.len() - i,
        {
            proof {
                assert(self@.items[i as int] == self.items@[i as int]@);
            }
            if self.items[i].id == id {
                proof {
                    lemma_first_index(self@.items, id_is(id), i as int);
                }
                return i;
            }
            i = i + 1;
        }
        proof {
            lemma_first_index(self@.items, id_is(id), i as int);
        }
        i
    }

    /// Replaces the item at a position.
    fn put_item(&mut self, p: usize, x: ClipboardItem)
        requires
            p < old(self)@.items.len(),
        ensures
            final(self)@ == old(self)@.with_items(old(self)@.items.update(p as int, x@)),
    {
        self.items.set(p, x);
        proof {
            assert(self@.items =~= old(self)@.items.update(p as int, x@));
        }
    }

    /// The item with this id, if it exists.
    pub fn get_item_by_id(&self, id: i64) -> (r: Result<Option<ClipboardItem>, String>)
        ensures
            r matches Ok(o) && match o {
                Some(x) => self@.item(id) == Some(x@),
                None => self@.item(id) is None,
            },
    {
        let p = self.find_item(id);
        if p < self.items.len() {
            proof {
                assert(self@.items[p as int] == self.items@[p as int]@);
            }
            Ok(Some(self.items[p].duplicate()))
        } else {
            Ok(None)
        }
    }

    /// The number of items.
    pub fn count_items(&self) -> (r: Result<i64, String>)
        requires
            self.wf(),
        ensures
            r matches Ok(n) && n == self@.items.len(),
    {
        proof {
            super::lemma_ids_len(self@.item_ids(), self@.item_seq);
        }
        Ok(self.items.len() as i64)
    }

    /// Marks the item as used now: it moves to the top of the history and its
    /// use count grows by one.
    pub fn touch_item(&mut self, id: i64) -> (r: Result<(), String>)
        requires
            old(self).wf(),
        ensures
            final(self).wf(),
            (r matches Err(e0) && e0@ == crate::db::clock_msg() && final(self)@ == old(self)@) || (r is Ok
                && exists|now: i64| now >= 0 && final(self)@ == old(self)@.touch(id, now)),
    {
        let now = match crate::db::clock_now() {
            Ok(n) => n,
            Err(e) => {
                return Err(e);
            },
        };
        self.touch_item_at(id, now);
        Ok(())
    }

    /// `touch_item` at a given time.
    pub fn touch_item_at(&mut self, id: i64, now: i64)
        requires
            old(self).wf(),
        ensures
            final(self).wf(),
            final(self)@ == old(self)@.touch(id, now),
    {
        let p = self.find_item(id);
        if p < self.items.len() {
            let mut x = self.items[p].duplicate();
            proof {
                assert(self@.items[p as int] == x@);
            }
            x.updated_at = now;
            x.use_count = if x.use_count < i64::MAX {
                x.use_count + 1
            } else {
                x.use_count
            };
            x.last_used_at = Some(now);
            self.put_item(p, x);
            proof {
                assert(self@.item_ids() =~= old(self)@.item_ids());
            }
        }
    }

    /// Sets or clears the tag of an item.
    pub fn set_item_tag(&mut self, id: i64, tag: Option<&str>) -> (r: Result<(), String>)
        requires
            old(self).wf(),
        ensures
            final(self).wf(),
            r is Ok,
            final(self)@ == old(self)@.retag(id, crate::model::osv(tag)),
    {
        let p = self.find_item(id);
        if p < self.items.len() {
            let mut x = self.items[p].duplicate();
            proof {
                assert(self@.items[p as int] == x@);
            }
            x.tag = crate::model::own_opt(tag);
            self.put_item(p, x);
            proof {
                assert(self@.item_ids() =~= old(self)@.item_ids());
            }
        }
        Ok(())
    }

    /// Deletes an item, and with it its board memberships.
    pub fn delete_item(&mut self, id: i64) -> (r: Result<(), String>)
        requires
            old(self).wf(),
        ensures
            final(self).wf(),
            r is Ok,
            final(self)@ == old(self)@.delete(id),
    {
        let p = self.find_item(id);
        let ghost old_ids = self@.item_ids();
        if p < self.items.len() {
            self.items.remove(p);
            proof {
                assert(self@.items =~= old(self)@.items.remove(p as int));
                assert(self@.item_ids() =~= old_ids.remove(p as int));
                lemma_ids_remove(old_ids, self@.item_seq, p as int);
            }
        }
        let ghost pred = |m: crate::model::Membership| m.item_id != id;
        let mut kept: Vec<crate::model::Membership> = Vec::new();
        let mut k: usize = 0;
        while k < self.members.len()
            invariant
                0 <= k <= self.members@.len(),
                self.members@ == old(self)@.members,
                pred == (|m: crate::model::Membership| m.item_id != id),
                kept@ == self.members@.take(k as int).filter(pred),
            decreases self.members.len() - k,
        {
            let m = self.members[k];
            proof {
                assert(self.members@.take(k + 1) =~= self.members@.take(k as int).push(m));
                self.members@.take(k as int).lemma_filter_push(m, pred);
            }
            if m.item_id != id {
                kept.push(m);
            }
            k = k + 1;
        }
        proof {
            assert(self.members@.take(k as int) =~= self.members@);
        }
        self.members = kept;
        proof {
            let o = old(self)@;
            let n = self@;
            lemma_filter_members(o.members, pred);
            assert forall|j: int| 0 <= j < n.members.len() implies n.board_ids().contains(
                #[trigger] n.members[j].board_id,
            ) && n.item_ids().contains(n.members[j].item_id) by {
                let m = n.members[j];
                assert(o.members.filter(pred).contains(m));
                let i = choose|i: int| 0 <= i < o.members.len() && o.members[i] == m;
                assert(o.board_ids() == n.board_ids());
                if p < o.items.len() {
                    assert(o.items[p as int].id == id);
                    assert(old_ids[p as int] == id);
                }
            }
        }
        Ok(())
    }
}

impl Database {
    /// Pinned items, newest first, at most `limit`.
    pub fn get_pinned(&self, limit: u32) -> (r: Result<Vec<ClipboardItem>, String>)
        ensures
            r matches Ok(v) && v@.map_values(|x: ClipboardItem| x@) == window_spec(
                self@.items,
                |x: ItemV| x.is_pinned,
                0,
                limit as int,
            ),
    {
        let sel = Selection::Pinned;
        proof {
            assert(sel.holds(self@) =~= (|x: ItemV| x.is_pinned));
        }
        Ok(self.window(&sel, 0, limit as u64))
    }

    /// Items whose content matches `%keyword%` under `LIKE`, newest first,
    /// at most 50.
    pub fn search(&self, keyword: &str) -> (r: Result<Vec<ClipboardItem>, String>)
        ensures
            r matches Ok(v) && v@.map_values(|x: ClipboardItem| x@) == window_spec(
                self@.items,
                |x: ItemV| crate::like::contains_like(keyword@, x.content),
                0,
                50,
            ),
    {
        let kw = chars_of(keyword);
        let mut p: Vec<char> = Vec::new();
        p.push('%');
        let mut i: usize = 0;
        while i < kw.len()
            invariant
                0 <= i <= kw@.len(),
                p@ == seq!['%'] + kw@.take(i as int),
            decreases kw.len() - i,
        {
            p.push(kw[i]);
            proof {
                assert(kw@.take(i + 1) =~= kw@.take(i as int).push(kw@[i as int]));
                assert(p@ =~= seq!['%'] + kw@.take(i + 1));
            }
            i = i + 1;
        }
        p.push('%');
        proof {
            assert(kw@.take(kw@.len() as int) =~= kw@);
            assert(p@ =~= seq!['%'] + keyword@ + seq!['%']);
        }
        let sel = Selection::ContentLike(p);
        proof {
            assert(sel.holds(self@) =~= (|x: ItemV| crate::like::contains_like(keyword@, x.content)));
        }
        Ok(self.window(&sel, 0, 50))
    }

    /// Items with this tag, newest first, at most `limit`.
    pub fn get_by_tag(&self, tag: &str, limit: u32) -> (r: Result<Vec<ClipboardItem>, String>)
        ensures
            r matches Ok(v) && v@.map_values(|x: ClipboardItem| x@) == window_spec(
                self@.items,
                |x: ItemV| x.tag == Some(tag@),
                0,
                limit as int,
            ),
    {
        let sel = Selection::Tagged(tag.to_owned());
        proof {
            assert(sel.holds(self@) =~= (|x: ItemV| x.tag == Some(tag@)));
        }
        Ok(self.window(&sel, 0, limit as u64))
    }

    /// Items on a board, newest first, at most `limit`.
    pub fn get_items_in_board(&self, board_id: i64, limit: u32) -> (r: Result<Vec<ClipboardItem>, String>)
        ensures
            r matches Ok(v) && v@.map_values(|x: ClipboardItem| x@) == window_spec(
                self@.items,
                |x: ItemV| self@.is_member(board_id, x.id),
                0,
                limit as int,
            ),
    {
        let sel = Selection::OnBoard(board_id);
        proof {
            assert(sel.holds(self@) =~= (|x: ItemV| self@.is_member(board_id, x.id)));
        }
        Ok(self.window(&sel, 0, limit as u64))
    }
}

/// The history limit: the `max_items` setting read as an integer, 1000
/// when it is missing or not a number; a negative limit means no limit.
pub open spec fn max_items_limit(db: DbV) -> i64 {
    match db.config_value("max_items"@) {
        Some(v) => match crate::text::parse_i64_spec(v) {
            Some(n) => n,
            None => 1000,
        },
        None => 1000,
    }
}

/// The keys, oldest first, of the loose items: those neither pinned nor on
/// a board.
pub open spec fn loose_keys(db: DbV) -> Seq<SortKey> {
    select_keys_spec(db.items, |x: ItemV| !x.is_pinned && !db.on_board(x.id), true)
}

/// The items that the history limit evicts: the oldest loose items beyond
/// the limit (`ORDER BY updated_at ASC LIMIT count - limit`, ties broken by
/// the smaller id first).
pub open spec fn evicted(db: DbV) -> Seq<SortKey> {
    let keys = loose_keys(db);
    let m = max_items_limit(db);
    if m < 0 || keys.len() <= m {
        Seq::empty()
    } else {
        sorted_keys(keys).take(keys.len() - m)
    }
}

/// Whether the item at a position survives eviction.
pub open spec fn survives(gone: Seq<SortKey>) -> spec_fn(int) -> bool {
    |pos: int| !gone.map_values(|k: SortKey| k.3 as int).contains(pos)
}

impl DbV {
    /// The database after the history limit is applied.
    pub open spec fn trimmed_history(self) -> DbV {
        self.with_items(keep_where(self.items, self.items.len() as int, survives(evicted(self))))
    }
}

impl Database {
    /// The history limit setting.
    fn max_items(&self) -> (r: i64)
        ensures
            r == max_items_limit(self@),
    {
        let v = self.get_config("max_items");
        proof {
            reveal_strlit("max_items");
        }
        match v {
            Ok(Some(t)) => match crate::text::parse_i64(t.as_str()) {
                Some(n) => n,
                None => 1000,
            },
            _ => 1000,
        }
    }

    /// Applies the history limit: the oldest items that are neither pinned nor
    /// on a board are
    /// deleted until at most the limit of such items remain.
    pub(crate) fn cleanup_old_items(&mut self)
        requires
            old(self).wf(),
        ensures
            final(self).wf(),
            final(self)@ == old(self)@.trimmed_history(),
    {
        let ghost db = self@;
        let m = self.max_items();
        let keys = self.select_keys(&Selection::Loose, true);
        let ghost sel = Selection::Loose.holds(db);
        proof {
            assert(sel =~= (|x: ItemV| !x.is_pinned && !db.on_board(x.id)));
        }
        let count = keys.len();
        let n = self.items.len();
        if m < 0 || (count as i128) <= (m as i128) {
            proof {
                assert(evicted(db) =~= Seq::<SortKey>::empty());
                assert(keep_where(db.items, db.items.len() as int, survives(evicted(db))) =~= db.items) by {
                    lemma_keep_all(db.items, db.items.len() as int, survives(evicted(db)));
                }
            }
            return;
        }
        let k: usize = count - (m as usize);
        let sorted = sort_keys(&keys);
        let ghost ks = keys@;
        proof {
            lemma_key_order_total();
            ks.lemma_sort_by_ensures(key_order());
            assert(db.items.len() == n);
            lemma_keys_upto(db.items, db.items.len() as int, sel, true);
            assert forall|key: SortKey| #[trigger] sorted@.contains(key) implies 0 <= key.3 < n && sel(db.items[key.3 as int]) by {
                if !ks.contains(key) {
                    assert(!ks.sort_by(key_order()).contains(key));
                }
                assert(ks.contains(key));
            }
        }
        let mut marked: Vec<bool> = Vec::new();
        let mut z: usize = 0;
        while z < n
            invariant
                0 <= z <= n,
                marked@.len() == z,
                forall|q: int| 0 <= q < z ==> !#[trigger] marked@[q],
            decreases n - z,
        {
            marked.push(false);
            z = z + 1;
        }
        let mut j: usize = 0;
        while j < k
            invariant
                0 <= j <= k <= sorted@.len(),
                marked@.len() == n,
                forall|key: SortKey| #[trigger] sorted@.contains(key) ==> 0 <= key.3 < n,
                forall|q: int| 0 <= q < n ==> #[trigger] marked@[q] == sorted@.take(j as int).map_values(
                    |kk: SortKey| kk.3 as int,
                ).contains(q),
            decreases k - j,
        {
            let key = sorted[j];
            proof {
                assert(sorted@.contains(key));
            }
            marked.set(key.3, true);
            proof {
                let a = sorted@.take(j as int).map_values(|kk: SortKey| kk.3 as int);
                let b = sorted@.take(j + 1).map_values(|kk: SortKey| kk.3 as int);
                assert(b =~= a.push(key.3 as int));
                assert forall|q: int| 0 <= q < n implies #[trigger] marked@[q] == b.contains(q) by {
                    if q == key.3 as int {
                        assert(b[b.len() - 1] == q);
                    } else {
                        if b.contains(q) {
                            let w = choose|w: int| 0 <= w < b.len() && b[w] == q;
                            assert(a[w] == q);
                        }
                        if a.contains(q) {
                            let w = choose|w: int| 0 <= w < a.len() && a[w] == q;
                            assert(b[w] == q);
                        }
                    }
                }
            }
            j = j + 1;
        }
        let ghost gone = sorted@.take(k as int);
        proof {
            assert(gone == evicted(db));
        }
        let mut kept: Vec<ClipboardItem> = Vec::new();
        let mut i: usize = 0;
        while i < n
            invariant
                0 <= i <= n == self.items@.len(),
                self@ == db,
                marked@.len() == n,
                forall|q: int| 0 <= q < n ==> #[trigger] marked@[q] == gone.map_values(
                    |kk: SortKey| kk.3 as int,
                ).contains(q),
                kept@.map_values(|x: ClipboardItem| x@) == keep_where(db.items, i as int, survives(gone)),
            decreases n - i,
        {
            if !marked[i] {
                let x = self.items[i].duplicate();
                proof {
                    assert(db.items[i as int] == x@);
                }
                kept.push(x);
            }
            proof {
                assert(kept@.map_values(|x: ClipboardItem| x@) =~= keep_where(db.items, i + 1, survives(gone)));
            }
            i = i + 1;
        }
        self.items = kept;
        proof {
            let nw = self@;
            assert(nw == db.trimmed_history());
            lemma_keep_where_ids(db.items, n as int, survives(gone), db.item_seq);
            lemma_keep_where(db.items, n as int, survives(gone));
            assert(nw.item_ids() =~= keep_where(db.items, n as int, survives(gone)).map_values(|x: ItemV| x.id));
            assert forall|q: int| 0 <= q < nw.members.len() implies nw.board_ids().contains(
                #[trigger] nw.members[q].board_id,
            ) && nw.item_ids().contains(nw.members[q].item_id) by {
                let mem = nw.members[q];
                let iid = mem.item_id;
                assert(nw.members[q] == db.members[q]);
                assert(db.board_ids().contains(db.members[q].board_id));
                assert(db.item_ids().contains(iid));
                let pos = choose|pos: int| 0 <= pos < db.item_ids().len() && db.item_ids()[pos] == iid;
                assert(db.items[pos].id == iid);
                assert(db.on_board(iid));
                let gp = gone.map_values(|kk: SortKey| kk.3 as int);
                if gp.contains(pos) {
                    let w = choose|w: int| 0 <= w < gp.len() && #[trigger] gp[w] == pos;
                    assert(gone[w] == sorted@[w]);
                    assert(sorted@.contains(gone[w]));
                }
                assert(survives(gone)(pos));
                let kw = keep_where(db.items, n as int, survives(gone));
                assert(kw.contains(db.items[pos]));
                let w = choose|w: int| 0 <= w < kw.len() && kw[w] == db.items[pos];
                assert(nw.item_ids()[w] == iid);
            }
        }
    }
}

proof fn lemma_keep_all<A>(s: Seq<A>, n: int, keep: spec_fn(int) -> bool)
    requires
        0 <= n <= s.len(),
        forall|p: int| 0 <= p < n ==> #[trigger] keep(p),
    ensures
        keep_where(s, n, keep) =~= s.take(n),
    decreases n,
{
    if n > 0 {
        lemma_keep_all(s, n - 1, keep);
        assert(s.take(n) =~= s.take(n - 1).push(s[n - 1]));
    }
}

/// An item recorded for the first time.
pub open spec fn fresh_item(
    id: i64,
    content_type: Seq<char>,
    content: Seq<char>,
    hash: Seq<char>,
    blob_path: Option<Seq<char>>,
    tag: Option<Seq<char>>,
    now: i64,
    source_app: Option<Seq<char>>,
    source_app_name: Option<Seq<char>>,
) -> ItemV {
    ItemV {
        id,
        content_type,
        content,
        content_hash: hash,
        blob_path,
        tag,
        created_at: now,
        updated_at: now,
        is_pinned: false,
        use_count: 0,
        last_used_at: None,
        source_app,
        source_app_name,
    }
}

/// The test that an item has the given content hash.
pub open spec fn hash_is(h: Seq<char>) -> spec_fn(ItemV) -> bool {
    |x: ItemV| x.content_hash == h
}

impl DbV {
    /// The database after a clipboard content is recorded, before the
    /// history limit is applied: an item with the same hash (the first one)
    /// is touched; otherwise the item `fresh` (given the next id) is added.
    /// `None` when a new id is needed and none is left.
    pub open spec fn record(self, hash: Seq<char>, fresh: ItemV, now: i64) -> Option<DbV> {
        let p = first_index(self.items, hash_is(hash));
        if p < self.items.len() {
            Some(self.with_items(self.items.update(p, touched(self.items[p], now))))
        } else if self.item_seq == i64::MAX {
            None
        } else {
            Some(
                DbV {
                    items: self.items.push(ItemV { id: (self.item_seq + 1) as i64, ..fresh }),
                    item_seq: (self.item_seq + 1) as i64,
                    ..self
                },
            )
        }
    }

    /// The database after a text is copied at time `now`.
    pub open spec fn record_text(
        self,
        content: Seq<char>,
        source_app: Option<Seq<char>>,
        source_app_name: Option<Seq<char>>,
        now: i64,
    ) -> Option<DbV> {
        let h = text_hash(content);
        let fresh = fresh_item(
            0,
            "text"@,
            content,
            h,
            None,
            crate::db::rules::match_tag_spec(self.rules, content),
            now,
            source_app,
            source_app_name,
        );
        match self.record(h, fresh, now) {
            Some(d) => Some(d.trimmed_history()),
            None => None,
        }
    }

    /// The database after an image is copied at time `now`.
    pub open spec fn record_image(
        self,
        blob_path: Seq<char>,
        hash: Seq<char>,
        source_app: Option<Seq<char>>,
        source_app_name: Option<Seq<char>>,
        now: i64,
    ) -> Option<DbV> {
        let fresh = fresh_item(
            0,
            "image"@,
            "[图片]"@,
            hash,
            Some(blob_path),
            None,
            now,
            source_app,
            source_app_name,
        );
        match self.record(hash, fresh, now) {
            Some(d) => Some(d.trimmed_history()),
            None => None,
        }
    }

    /// The database after the text of an item is replaced at time `now`,
    /// if the item exists and is a text item.
    pub open spec fn edit_content(self, id: i64, content: Seq<char>, now: i64) -> Option<DbV> {
        let p = self.item_pos(id);
        if p < self.items.len() && self.items[p].content_type == "text"@ {
            Some(
                self.with_items(
                    self.items.update(
                        p,
                        ItemV {
                            content: content,
                            content_hash: text_hash(content),
                            updated_at: now,
                            ..self.items[p]
                        },
                    ),
                ),
            )
        } else {
            None
        }
    }
}

impl Database {
    pub(crate) fn find_hash(&self, h: &String) -> (r: usize)
        ensures
            r == first_index(self@.items, hash_is(h@)),
            r <= self@.items.len(),
    {
        let mut i: usize = 0;
        while i < self.items.len()
            invariant
                0 <= i <= self.items@.len(),
                self@.items.len() == self.items@.len(),
                forall|j: int| 0 <= j < i ==> !hash_is(h@)(#[trigger] self@.items[j]),
            decreases self.items.len() - i,
        {
            proof {
                assert(self@.items[i as int] == self.items@[i as int]@);
            }
            if self.items[i].content_hash == *h {
                proof {
                    lemma_first_index(self@.items, hash_is(h@), i as int);
                }
                return i;
            }
            i = i + 1;
        }
        proof {
            lemma_first_index(self@.items, hash_is(h@), i as int);
        }
        i
    }

    /// Records a content with this hash: touches the existing item or adds
    /// `fresh` with the next id.
    fn record_exec(&mut self, h: &String, fresh: ClipboardItem, now: i64) -> (r: bool)
        requires
            old(self).wf(),
        ensures
            r == old(self)@.record(h@, fresh@, now) is Some,
            r ==> final(self).wf() && Some(final(self)@) == old(self)@.record(h@, fresh@, now),
            !r ==> final(self)@ == old(self)@,
    {
        let p = self.find_hash(h);
        if p < self.items.len() {
            let mut x = self.items[p].duplicate();
            proof {
                assert(self@.items[p as int] == x@);
            }
            x.updated_at = now;
            x.use_count = if x.use_count < i64::MAX {
                x.use_count + 1
            } else {
                x.use_count
            };
            x.last_used_at = Some(now);
            self.put_item(p, x);
            proof {
                assert(self@.item_ids() =~= old(self)@.item_ids());
            }
            return true;
        }
        if self.item_seq == i64::MAX {
            return false;
        }
        let id = self.item_seq + 1;
        let mut y = fresh;
        y.id = id;
        let ghost old_ids = self@.item_ids();
        self.items.push(y);
        self.item_seq = id;
        proof {
            assert(self@.items =~= old(self)@.items.push(ItemV { id: id, ..fresh@ }));
            assert(self@.item_ids() =~= old_ids.push(id));
            super::lemma_ids_push(old_ids, old(self)@.item_seq);
            let o = old(self)@;
            let n = self@;
            assert forall|q: int| 0 <= q < n.members.len() implies n.board_ids().contains(
                #[trigger] n.members[q].board_id,
            ) && n.item_ids().contains(n.members[q].item_id) by {
                assert(o.board_ids().contains(o.members[q].board_id));
                assert(o.item_ids().contains(o.members[q].item_id));
                let w = choose|w: int| 0 <= w < old_ids.len() && old_ids[w] == o.members[q].item_id;
                assert(n.item_ids()[w] == old_ids[w]);
            }
        }
        true
    }

    /// Records a copied text at time `now`. Text seen before (same hash)
    /// moves to the top and counts one more use; new text is tagged by the
    /// tag rules. The history limit is applied afterwards.
    pub fn insert_text_at(
        &mut self,
        content: &str,
        source_app: Option<&str>,
        source_app_name: Option<&str>,
        now: i64,
    ) -> (r: Result<(), String>)
        requires
            old(self).wf(),
        ensures
            final(self).wf(),
            match r {
                Ok(()) => Some(final(self)@) == old(self)@.record_text(
                    content@,
                    crate::model::osv(source_app),
                    crate::model::osv(source_app_name),
                    now,
                ),
                Err(e) => old(self)@.record_text(
                    content@,
                    crate::model::osv(source_app),
                    crate::model::osv(source_app_name),
                    now,
                ) is None && final(self)@ == old(self)@ && e@ == crate::db::rules::full_msg(),
            },
    {
        let h = hash_text(content);
        let tag = self.match_tag(content);
        let fresh = ClipboardItem {
            id: 0,
            content_type: "text".to_owned(),
            content: content.to_owned(),
            content_hash: h.clone(),
            blob_path: None,
            tag: tag,
            created_at: now,
            updated_at: now,
            is_pinned: false,
            use_count: 0,
            last_used_at: None,
            source_app: crate::model::own_opt(source_app),
            source_app_name: crate::model::own_opt(source_app_name),
        };
        if !self.record_exec(&h, fresh, now) {
            return Err("database or disk is full".to_owned());
        }
        self.cleanup_old_items();
        Ok(())
    }

    /// Records a copied text, now.
    pub fn insert_text(
        &mut self,
        content: &str,
        source_app: Option<&str>,
        source_app_name: Option<&str>,
    ) -> (r: Result<(), String>)
        requires
            old(self).wf(),
        ensures
            final(self).wf(),
            (r matches Err(e0) && e0@ == crate::db::clock_msg() && final(self)@ == old(self)@) || exists|now: i64|
                now >= 0 && match r {
                    Ok(()) => Some(final(self)@) == old(self)@.record_text(
                        content@,
                        crate::model::osv(source_app),
                        crate::model::osv(source_app_name),
                        now,
                    ),
                    Err(e) => old(self)@.record_text(
                        content@,
                        crate::model::osv(source_app),
                        crate::model::osv(source_app_name),
                        now,
                    ) is None && final(self)@ == old(self)@ && e@ == crate::db::rules::full_msg(),
                },
    {
        let now = match crate::db::clock_now() {
            Ok(n) => n,
            Err(e) => {
                return Err(e);
            },
        };
        self.insert_text_at(content, source_app, source_app_name, now)
    }

    /// Records a copied image (stored under `blob_path`, with the hash of its
    /// PNG bytes) at time `now`. An image seen before moves to the top and
    /// counts one more use. The history limit is applied afterwards.
    pub fn insert_image_at(
        &mut self,
        blob_path: &str,
        content_hash: &str,
        source_app: Option<&str>,
        source_app_name: Option<&str>,
        now: i64,
    ) -> (r: Result<(), String>)
        requires
            old(self).wf(),
        ensures
            final(self).wf(),
            match r {
                Ok(()) => Some(final(self)@) == old(self)@.record_image(
                    blob_path@,
                    content_hash@,
                    crate::model::osv(source_app),
                    crate::model::osv(source_app_name),
                    now,
                ),
                Err(e) => old(self)@.record_image(
                    blob_path@,
                    content_hash@,
                    crate::model::osv(source_app),
                    crate::model::osv(source_app_name),
                    now,
                ) is None && final(self)@ == old(self)@ && e@ == crate::db::rules::full_msg(),
            },
    {
        let h = content_hash.to_owned();
        let fresh = ClipboardItem {
            id: 0,
            content_type: "image".to_owned(),
            content: "[图片]".to_owned(),
            content_hash: h.clone(),
            blob_path: Some(blob_path.to_owned()),
            tag: None,
            created_at: now,
            updated_at: now,
            is_pinned: false,
            use_count: 0,
            last_used_at: None,
            source_app: crate::model::own_opt(source_app),
            source_app_name: crate::model::own_opt(source_app_name),
        };
        if !self.record_exec(&h, fresh, now) {
            return Err("database or disk is full".to_owned());
        }
        self.cleanup_old_items();
        Ok(())
    }

    /// Records a copied image, now.
    pub fn insert_image(
        &mut self,
        blob_path: &str,
        content_hash: &str,
        source_app: Option<&str>,
        source_app_name: Option<&str>,
    ) -> (r: Result<(), String>)
        requires
            old(self).wf(),
        ensures
            final(self).wf(),
            (r matches Err(e0) && e0@ == crate::db::clock_msg() && final(self)@ == old(self)@) || exists|now: i64|
                now >= 0 && match r {
                    Ok(()) => Some(final(self)@) == old(self)@.record_image(
                        blob_path@,
                        content_hash@,
                        crate::model::osv(source_app),
                        crate::model::osv(source_app_name),
                        now,
                    ),
                    Err(e) => old(self)@.record_image(
                        blob_path@,
                        content_hash@,
                        crate::model::osv(source_app),
                        crate::model::osv(source_app_name),
                        now,
                    ) is None && final(self)@ == old(self)@ && e@ == crate::db::rules::full_msg(),
                },
    {
        let now = match crate::db::clock_now() {
            Ok(n) => n,
            Err(e) => {
                return Err(e);
            },
        };
        self.insert_image_at(blob_path, content_hash, source_app, source_app_name, now)
    }

    /// Replaces the text of a text item, at time `now`. The text is trimmed
    /// first and must not be empty; tag, boards and pin are kept.
    pub fn update_item_content_at(&mut self, id: i64, content: &str, now: i64) -> (r: Result<(), String>)
        requires
            old(self).wf(),
        ensures
            final(self).wf(),
            match r {
                Ok(()) => trim_seq(content@).len() > 0 && Some(final(self)@) == old(self)@.edit_content(
                    id,
                    trim_seq(content@),
                    now,
                ),
                Err(e) => final(self)@ == old(self)@ && if trim_seq(content@).len() == 0 {
                    e@ == "内容不能为空"@
                } else {
                    old(self)@.edit_content(id, trim_seq(content@), now) is None && e@
                        == "条目不存在或非文本类型"@
                },
            },
    {
        let t = trim_str(content);
        if t.as_str().is_empty() {
            return Err("内容不能为空".to_owned());
        }
        let h = hash_text(t.as_str());
        let p = self.find_item(id);
        if p < self.items.len() && crate::text::same_text(self.items[p].content_type.as_str(), "text") {
            let mut x = self.items[p].duplicate();
            proof {
                assert(self@.items[p as int] == x@);
            }
            x.content = t;
            x.content_hash = h;
            x.updated_at = now;
            self.put_item(p, x);
            proof {
                assert(self@.item_ids() =~= old(self)@.item_ids());
            }
            return Ok(());
        }
        Err("条目不存在或非文本类型".to_owned())
    }

    /// Replaces the text of a text item, now.
    pub fn update_item_content(&mut self, id: i64, content: &str) -> (r: Result<(), String>)
        requires
            old(self).wf(),
        ensures
            final(self).wf(),
            trim_seq(content@).len() == 0 ==> (r matches Err(e) && e@ == "内容不能为空"@ && final(self)@ == old(self)@),
            trim_seq(content@).len() > 0 && old(self)@.edit_content(id, trim_seq(content@), 0) is None ==> (
            r matches Err(e) && e@ == "条目不存在或非文本类型"@ && final(self)@ == old(self)@),
            (r matches Err(e0) && e0@ == crate::db::clock_msg() && final(self)@ == old(self)@) || exists|now: i64|
                now >= 0 && match r {
                    Ok(()) => trim_seq(content@).len() > 0 && Some(final(self)@)
                        == old(self)@.edit_content(id, trim_seq(content@), now),
                    Err(e) => final(self)@ == old(self)@ && if trim_seq(content@).len() == 0 {
                        e@ == "内容不能为空"@
                    } else {
                        old(self)@.edit_content(id, trim_seq(content@), now) is None && e@
                            == "条目不存在或非文本类型"@
                    },
                },
    {
        let t = trim_str(content);
        if t.as_str().is_empty() {
            return Err("内容不能为空".to_owned());
        }
        let p = self.find_item(id);
        if !(p < self.items.len() && crate::text::same_text(self.items[p].content_type.as_str(), "text")) {
            proof {
                reveal_strlit("text");
                if p < self@.items.len() {
                    assert(self@.items[p as int] == self.items@[p as int]@);
                }
            }
            return Err("条目不存在或非文本类型".to_owned());
        }
        let now = match crate::db::clock_now() {
            Ok(n) => n,
            Err(e) => {
                return Err(e);
            },
        };
        proof {
            reveal_strlit("text");
            assert(self@.items[p as int] == self.items@[p as int]@);
        }
        self.update_item_content_at(id, content, now)
    }
}
} // verus!
