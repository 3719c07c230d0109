//! Boards: named collections of items. The built-in favorites board
//! mirrors the pin flag of items.

use vstd::prelude::*;
use crate::keysort::{SortKey, key_order, lemma_key_order_total, sort_keys, sorted_keys};
use crate::model::{Board, BoardRow, BoardShown, BoardV, ItemV, Membership, shown};
use crate::text::{trim_seq, trim_str};
use super::{
    Database, DbV, first_index, ids_ok, lemma_filter_members, lemma_first_index,
    lemma_first_index_bounds, lemma_ids_push, lemma_ids_remove, links_ok, pairs_unique,
};
use super::rules::full_msg;

verus! {

/// Whether the (board, item) pair is among the memberships.
pub open spec fn has_link(m: Seq<Membership>, board_id: i64, item_id: i64) -> bool {
    exists|k: int|
        0 <= k < m.len() && #[trigger] m[k].board_id == board_id && m[k].item_id == item_id
}

/// `INSERT OR IGNORE` of a membership.
pub open spec fn add_link(m: Seq<Membership>, board_id: i64, item_id: i64, now: i64) -> Seq<Membership> {
    if has_link(m, board_id, item_id) {
        m
    } else {
        m.push(Membership { board_id, item_id, added_at: now })
    }
}

/// `DELETE` of a membership.
pub open spec fn drop_link(m: Seq<Membership>, board_id: i64, item_id: i64) -> Seq<Membership> {
    m.filter(|x: Membership| !(x.board_id == board_id && x.item_id == item_id))
}

/// A user board as created.
pub open spec fn new_user_board(id: i64, name: Seq<char>, color: Seq<char>, sort_order: i64, now: i64) -> BoardV {
    BoardV { id, name, color, sort_order, is_builtin: false, created_at: now }
}

/// The name that the favorites board has.
pub open spec fn fav_name() -> Seq<char> {
    "收藏夹"@
}

/// Boards listed built-in first, then by sort order, then by id.
pub open spec fn board_key(b: BoardV, pos: int) -> SortKey {
    ((if b.is_builtin { -1int } else { 0int }) as i128, b.sort_order as i128, b.id as i128, pos as usize)
}

pub open spec fn board_keys_upto(boards: Seq<BoardV>, n: int) -> Seq<SortKey>
    decreases n,
{
    if n <= 0 {
        Seq::empty()
    } else {
        board_keys_upto(boards, n - 1).push(board_key(boards[n - 1], n - 1))
    }
}

/// The boards in listing order.
pub open spec fn board_order(boards: Seq<BoardV>) -> Seq<SortKey> {
    sorted_keys(board_keys_upto(boards, boards.len() as int))
}

pub proof fn lemma_board_keys(boards: Seq<BoardV>, n: int)
    requires
        0 <= n <= boards.len() <= usize::MAX,
    ensures
        forall|k: SortKey| #[trigger] board_keys_upto(boards, n).contains(k) ==> 0 <= k.3 < n,
    decreases n,
{
    if n > 0 {
        lemma_board_keys(boards, n - 1);
        let r = board_keys_upto(boards, n - 1);
        let t = board_keys_upto(boards, n);
        assert forall|k: SortKey| #[trigger] t.contains(k) implies 0 <= k.3 < n by {
            let j = choose|j: int| 0 <= j < t.len() && t[j] == k;
            if j < r.len() {
                assert(r[j] == t[j]);
                assert(r.contains(k));
            }
        }
    }
}

/// The largest sort order of the user boards among the first `n`.
pub open spec fn max_user_order(boards: Seq<BoardV>, n: int) -> Option<i64>
    decreases n,
{
    if n <= 0 {
        None
    } else {
        let m = max_user_order(boards, n - 1);
        let b = boards[n - 1];
        if b.is_builtin {
            m
        } else {
            match m {
                None => Some(b.sort_order),
                Some(x) => Some(
                    if b.sort_order > x {
                        b.sort_order
                    } else {
                        x
                    },
                ),
            }
        }
    }
}

/// The sort order that a new board gets: one past the largest user board's
/// (`COALESCE(MAX(sort_order), 0) + 1`); when that sum overflows, the
/// query's value is not an integer and 1 is used.
pub open spec fn next_order(boards: Seq<BoardV>) -> i64 {
    match max_user_order(boards, boards.len() as int) {
        None => 1,
        Some(m) => if m == i64::MAX {
            1
        } else {
            (m + 1) as i64
        },
    }
}

/// The boards after `reorder_boards(ids)`: the user board named at index
/// `i` of `ids` gets sort order `i + 1`, later indices winning.
pub open spec fn reordered(boards: Seq<BoardV>, ids: Seq<i64>, n: int) -> Seq<BoardV>
    decreases n,
{
    if n <= 0 {
        boards
    } else {
        reordered(boards, ids, n - 1).map_values(
            |b: BoardV|
                if b.id == ids[n - 1] && !b.is_builtin {
                    BoardV { sort_order: n as i64, ..b }
                } else {
                    b
                },
        )
    }
}

/// Pinned items among the first `n` joined to the favorites board, in order
/// (`INSERT OR IGNORE ... SELECT ... WHERE is_pinned = 1`).
pub open spec fn adopt_pinned(
    m: Seq<Membership>,
    items: Seq<ItemV>,
    n: int,
    fav: i64,
    now: i64,
) -> Seq<Membership>
    decreases n,
{
    if n <= 0 {
        m
    } else {
        let r = adopt_pinned(m, items, n - 1, fav, now);
        if items[n - 1].is_pinned {
            add_link(r, fav, items[n - 1].id, now)
        } else {
            r
        }
    }
}

/// The test that a board has the given id.
pub open spec fn board_id_is(id: i64) -> spec_fn(BoardV) -> bool {
    |b: BoardV| b.id == id
}

impl DbV {
    pub open spec fn board_pos(self, id: i64) -> int {
        first_index(self.boards, board_id_is(id))
    }

    /// The item with its pin flag set to `v`.
    pub open spec fn set_pin(self, id: i64, v: bool) -> DbV {
        let p = self.item_pos(id);
        if p < self.items.len() {
            self.with_items(self.items.update(p, ItemV { is_pinned: v, ..self.items[p] }))
        } else {
            self
        }
    }

    /// The database after `toggle_pin(id)` at time `now`, with the new pin
    /// flag; `None` when there is no such item.
    pub open spec fn toggle(self, id: i64, now: i64) -> Option<(DbV, bool)> {
        let p = self.item_pos(id);
        if p < self.items.len() {
            let v = !self.items[p].is_pinned;
            let d = self.set_pin(id, v);
            let e = match self.fav_id() {
                Some(f) => if v {
                    d.with_members(add_link(d.members, f, id, now))
                } else {
                    d.with_members(drop_link(d.members, f, id))
                },
                None => d,
            };
            Some((e, v))
        } else {
            None
        }
    }

    /// The database after `add_item_to_board(board_id, item_id)` at `now`.
    pub open spec fn join(self, board_id: i64, item_id: i64, now: i64) -> DbV {
        let d = self.with_members(add_link(self.members, board_id, item_id, now));
        if self.fav_id() == Some(board_id) {
            d.set_pin(item_id, true)
        } else {
            d
        }
    }

    /// The database after `remove_item_from_board(board_id, item_id)`.
    pub open spec fn leave(self, board_id: i64, item_id: i64) -> DbV {
        let d = self.with_members(drop_link(self.members, board_id, item_id));
        if self.fav_id() == Some(board_id) {
            d.set_pin(item_id, false)
        } else {
            d
        }
    }

    /// The database after `delete_board(id)`: a user board and its
    /// memberships are removed; a built-in board stays.
    pub open spec fn drop_board(self, id: i64) -> DbV {
        let p = self.board_pos(id);
        if p < self.boards.len() && !self.boards[p].is_builtin {
            DbV {
                boards: self.boards.remove(p),
                members: self.members.filter(|m: Membership| m.board_id != id),
                ..self
            }
        } else {
            self
        }
    }

    /// The board with field changes applied when `ok(board)` holds.
    pub open spec fn edit_board(self, id: i64, f: spec_fn(BoardV) -> BoardV, user_only: bool) -> DbV {
        let p = self.board_pos(id);
        if p < self.boards.len() && !(user_only && self.boards[p].is_builtin) {
            DbV { boards: self.boards.update(p, f(self.boards[p])), ..self }
        } else {
            self
        }
    }

    /// The database after the favorites board is made sure of at `now`:
    /// built-in boards named `收藏` are renamed `收藏夹`, a favorites board is
    /// created when there is none, and pinned items are joined to it.
    pub open spec fn with_favorites(self, now: i64) -> DbV {
        let renamed = self.boards.map_values(
            |b: BoardV|
                if b.is_builtin && b.name == "收藏"@ {
                    BoardV { name: fav_name(), ..b }
                } else {
                    b
                },
        );
        if self.fav_pos() < self.boards.len() {
            let f = self.boards[self.fav_pos()].id;
            DbV {
                boards: renamed,
                members: adopt_pinned(self.members, self.items, self.items.len() as int, f, now),
                ..self
            }
        } else if self.board_seq == i64::MAX {
            self
        } else {
            let f = (self.board_seq + 1) as i64;
            DbV {
                boards: self.boards.push(
                    BoardV {
                        id: f,
                        name: fav_name(),
                        color: "#f5c518"@,
                        sort_order: 0,
                        is_builtin: true,
                        created_at: now,
                    },
                ),
                board_seq: f,
                members: adopt_pinned(self.members, self.items, self.items.len() as int, f, now),
                ..self
            }
        }
    }
}

impl Database {
    pub(crate) fn find_board(&self, id: i64) -> (r: usize)
        ensures
            r == self@.board_pos(id),
            r <= self@.boards.len(),
            r < self@.boards.len() ==> self@.boards[r as int].id == id,
    {
        let ghost p = board_id_is(id);
        let mut i: usize = 0;
        while i < self.boards.len()
            invariant
                0 <= i <= self.boards@.len(),
                self@.boards.len() == self.boards@.len(),
                p == board_id_is(id),
                forall|j: int| 0 <= j < i ==> !p(#[trigger] self@.boards[j]),
            decreases self.boards.len() - i,
        {
            proof {
                assert(self@.boards[i as int] == self.boards@[i as int]@);
            }
            if self.boards[i].id == id {
                proof {
                    lemma_first_index(self@.boards, p, i as int);
                }
                return i;
            }
            i = i + 1;
        }
        proof {
            lemma_first_index(self@.boards, p, i as int);
        }
        i
    }

    /// The id of the favorites board (the built-in board with the smallest id).
    pub(crate) fn favorites_board_id(&self) -> (r: Option<i64>)
        ensures
            r == self@.fav_id(),
    {
        let ghost p = |b: BoardV| b.is_builtin;
        let mut i: usize = 0;
        while i < self.boards.len()
            invariant
                0 <= i <= self.boards@.len(),
                self@.boards.len() == self.boards@.len(),
                p == (|b: BoardV| b.is_builtin),
                forall|j: int| 0 <= j < i ==> !p(#[trigger] self@.boards[j]),
            decreases self.boards.len() - i,
        {
            proof {
                assert(self@.boards[i as int] == self.boards@[i as int]@);
            }
            if self.boards[i].is_builtin {
                proof {
                    lemma_first_index(self@.boards, p, i as int);
                }
                return Some(self.boards[i].id);
            }
            i = i + 1;
        }
        proof {
            lemma_first_index(self@.boards, p, i as int);
        }
        None
    }

    /// Adds a membership unless the pair is there (`INSERT OR IGNORE`).
    pub(crate) fn link(&mut self, board_id: i64, item_id: i64, now: i64)
        requires
            old(self).wf(),
            old(self)@.has_board(board_id),
            old(self)@.has_item(item_id),
        ensures
            final(self).wf(),
            final(self)@ == old(self)@.with_members(add_link(old(self)@.members, board_id, item_id, now)),
    {
        let mut k: usize = 0;
        while k < self.members.len()
            invariant
                0 <= k <= self.members@.len(),
                self@ == old(self)@,
                self.wf(),
                self@.members == self.members@,
                forall|j: int|
                    0 <= j < k ==> !((#[trigger] self.members@[j]).board_id == board_id
                        && self.members@[j].item_id == item_id),
            decreases self.members.len() - k,
        {
            if self.members[k].board_id == board_id && self.members[k].item_id == item_id {
                proof {
                    assert(has_link(self@.members, board_id, item_id));
                }
                return;
            }
            k = k + 1;
        }
        let m = Membership { board_id, item_id, added_at: now };
        self.members.push(m);
        proof {
            let o = old(self)@;
            let n = self@;
            assert(!has_link(o.members, board_id, item_id));
            assert(n.members == o.members.push(m));
            assert(n == o.with_members(add_link(o.members, board_id, item_id, now)));
            assert forall|q: int| 0 <= q < n.members.len() implies n.board_ids().contains(
                #[trigger] n.members[q].board_id,
            ) && n.item_ids().contains(n.members[q].item_id) by {
                if q < o.members.len() {
                    assert(n.members[q] == o.members[q]);
                    assert(o.board_ids().contains(o.members[q].board_id));
                }
            }
            assert forall|a: int, b: int| 0 <= a < b < n.members.len() implies !(
            #[trigger] n.members[a].board_id == #[trigger] n.members[b].board_id
                && n.members[a].item_id == n.members[b].item_id) by {
                if b < o.members.len() {
                    assert(n.members[a] == o.members[a] && n.members[b] == o.members[b]);
                } else {
                    assert(n.members[a] == o.members[a]);
                }
            }
        }
    }

    /// Removes the membership of the pair, if any.
    fn unlink(&mut self, board_id: i64, item_id: i64)
        requires
            old(self).wf(),
        ensures
            final(self).wf(),
            final(self)@ == old(self)@.with_members(drop_link(old(self)@.members, board_id, item_id)),
    {
        let ghost pred = |x: Membership| !(x.board_id == board_id && x.item_id == item_id);
        let mut kept: Vec<Membership> = Vec::new();
        let mut k: usize = 0;
        while k < self.members.len()
            invariant
                0 <= k <= self.members@.len(),
                self.members@ == old(self)@.members,
                pred == (|x: Membership| !(x.board_id == board_id && x.item_id == item_id)),
                kept@ == self.members@.take(k as int).filter(pred),
            decreases self.members.len() - k,
        {
            let m = self.members[k];
            proof {
                assert(self.members@.take(k + 1) =~= self.members@.take(k as int).push(m));
                self.members@.take(k as int).lemma_filter_push(m, pred);
            }
            if !(m.board_id == board_id && m.item_id == item_id) {
                kept.push(m);
            }
            k = k + 1;
        }
        proof {
            assert(self.members@.take(k as int) =~= self.members@);
        }
        self.members = kept;
        proof {
            let o = old(self)@;
            let n = self@;
            lemma_filter_members(o.members, pred);
            assert forall|j: int| 0 <= j < n.members.len() implies n.board_ids().contains(
                #[trigger] n.members[j].board_id,
            ) && n.item_ids().contains(n.members[j].item_id) by {
                let m = n.members[j];
                assert(o.members.filter(pred).contains(m));
                let i = choose|i: int| 0 <= i < o.members.len() && o.members[i] == m;
                assert(o.board_ids().contains(o.members[i].board_id));
            }
        }
    }

    /// Sets the pin flag of an item, if it exists.
    fn pin(&mut self, item_id: i64, v: bool)
        requires
            old(self).wf(),
        ensures
            final(self).wf(),
            final(self)@ == old(self)@.set_pin(item_id, v),
    {
        let p = self.find_item(item_id);
        if p < self.items.len() {
            let mut x = self.items[p].duplicate();
            proof {
                assert(self@.items[p as int] == x@);
            }
            x.is_pinned = v;
            self.items.set(p, x);
            proof {
                assert(self@.items =~= old(self)@.items.update(
                    p as int,
                    ItemV { is_pinned: v, ..old(self)@.items[p as int] },
                ));
                assert(self@.item_ids() =~= old(self)@.item_ids());
            }
        }
    }

    /// Flips the pin flag of an item, at time `now`, and keeps the favorites
    /// board in step: a pinned item is on it, an unpinned one is not.
    pub fn toggle_pin_at(&mut self, id: i64, now: i64) -> (r: Result<bool, String>)
        requires
            old(self).wf(),
        ensures
            final(self).wf(),
            match r {
                Ok(v) => old(self)@.toggle(id, now) == Some((final(self)@, v)),
                Err(e) => old(self)@.toggle(id, now) is None && final(self)@ == old(self)@
                    && e@ == "Query returned no rows"@,
            },
    {
        let p = self.find_item(id);
        if p >= self.items.len() {
            return Err("Query returned no rows".to_owned());
        }
        let v = !self.items[p].is_pinned;
        proof {
            assert(self@.items[p as int] == self.items@[p as int]@);
        }
        let fav = self.favorites_board_id();
        self.pin(id, v);
        match fav {
            Some(f) => {
                proof {
                    super::lemma_first_index_bounds(old(self)@.boards, |b: BoardV| b.is_builtin);
                    assert(self@.boards == old(self)@.boards);
                    assert(self@.board_ids()[old(self)@.fav_pos()] == f);
                    assert(self@.item_ids()[p as int] == id);
                }
                if v {
                    self.link(f, id, now);
                } else {
                    self.unlink(f, id);
                }
            },
            None => {},
        }
        Ok(v)
    }

    /// Flips the pin flag of an item, now.
    pub fn toggle_pin(&mut self, id: i64) -> (r: Result<bool, String>)
        requires
            old(self).wf(),
        ensures
            final(self).wf(),
            old(self)@.item(id) is None ==> (r matches Err(e) && e@ == "Query returned no rows"@ && final(self)@ == old(self)@),
            (r matches Err(e0) && e0@ == crate::db::clock_msg() && final(self)@ == old(self)@) || exists|now: i64|
                now >= 0 && match r {
                    Ok(v) => #[trigger] old(self)@.toggle(id, now) == Some((final(self)@, v)),
                    Err(e) => old(self)@.toggle(id, now) is None && final(self)@ == old(self)@
                        && e@ == "Query returned no rows"@,
                },
    {
        if self.find_item(id) >= self.items.len() {
            proof {
                let _w = old(self)@.toggle(id, 0);
            }
            return Err("Query returned no rows".to_owned());
        }
        let now = match crate::db::clock_now() {
            Ok(n) => n,
            Err(e) => {
                return Err(e);
            },
        };
        self.toggle_pin_at(id, now)
    }

    /// Whether both the board and the item exist.
    fn link_allowed(&self, board_id: i64, item_id: i64) -> (r: bool)
        ensures
            r == (self@.has_board(board_id) && self@.has_item(item_id)),
    {
        let bp = self.find_board(board_id);
        let ip = self.find_item(item_id);
        proof {
            lemma_first_index_bounds(self@.boards, board_id_is(board_id));
            lemma_first_index_bounds(self@.items, super::id_is(item_id));
            if self@.has_board(board_id) {
                let w = choose|w: int| 0 <= w < self@.board_ids().len() && self@.board_ids()[w] == board_id;
                assert(board_id_is(board_id)(self@.boards[w]));
            }
            if self@.has_item(item_id) {
                let w = choose|w: int| 0 <= w < self@.item_ids().len() && self@.item_ids()[w] == item_id;
                assert(super::id_is(item_id)(self@.items[w]));
            }
            if bp < self@.boards.len() {
                assert(self@.board_ids()[bp as int] == board_id);
            }
            if ip < self@.items.len() {
                assert(self@.item_ids()[ip as int] == item_id);
            }
        }
        bp < self.boards.len() && ip < self.items.len()
    }

    /// Adds an item to a board, at time `now`; on the favorites board the
    /// item is also pinned. Both must exist.
    pub fn add_item_to_board_at(&mut self, board_id: i64, item_id: i64, now: i64) -> (r: Result<(), String>)
        requires
            old(self).wf(),
        ensures
            final(self).wf(),
            match r {
                Ok(()) => old(self)@.has_board(board_id) && old(self)@.has_item(item_id)
                    && final(self)@ == old(self)@.join(board_id, item_id, now),
                Err(e) => !(old(self)@.has_board(board_id) && old(self)@.has_item(item_id))
                    && final(self)@ == old(self)@ && e@ == "FOREIGN KEY constraint failed"@,
            },
    {
        if !self.link_allowed(board_id, item_id) {
            return Err("FOREIGN KEY constraint failed".to_owned());
        }
        let bp = self.find_board(board_id);
        let ip = self.find_item(item_id);
        proof {
            lemma_first_index_bounds(self@.boards, |b: BoardV| b.id == board_id);
            lemma_first_index_bounds(self@.items, super::id_is(item_id));
            if self@.has_board(board_id) {
                let w = choose|w: int| 0 <= w < self@.board_ids().len() && self@.board_ids()[w] == board_id;
                assert((|b: BoardV| b.id == board_id)(self@.boards[w]));
            }
            if self@.has_item(item_id) {
                let w = choose|w: int| 0 <= w < self@.item_ids().len() && self@.item_ids()[w] == item_id;
                assert(super::id_is(item_id)(self@.items[w]));
            }
        }
        if bp >= self.boards.len() || ip >= self.items.len() {
            return Err("FOREIGN KEY constraint failed".to_owned());
        }
        proof {
            assert(self@.board_ids()[bp as int] == board_id);
            assert(self@.item_ids()[ip as int] == item_id);
        }
        let fav = self.favorites_board_id();
        self.link(board_id, item_id, now);
        if fav == Some(board_id) {
            self.pin(item_id, true);
        }
        Ok(())
    }

    /// Adds an item to a board, now.
    pub fn add_item_to_board(&mut self, board_id: i64, item_id: i64) -> (r: Result<(), String>)
        requires
            old(self).wf(),
        ensures
            final(self).wf(),
            !(old(self)@.has_board(board_id) && old(self)@.has_item(item_id)) ==> (r matches Err(e) && e@
                == "FOREIGN KEY constraint failed"@ && final(self)@ == old(self)@),
            (r matches Err(e0) && e0@ == crate::db::clock_msg() && final(self)@ == old(self)@) || exists|now: i64|
                now >= 0 && match r {
                    Ok(()) => old(self)@.has_board(board_id) && old(self)@.has_item(item_id)
                        && final(self)@ == #[trigger] old(self)@.join(board_id, item_id, now),
                    Err(e) => !(old(self)@.has_board(board_id) && old(self)@.has_item(item_id))
                        && final(self)@ == old(self)@ && e@ == "FOREIGN KEY constraint failed"@,
                },
    {
        if !self.link_allowed(board_id, item_id) {
            proof {
                let _w = old(self)@.join(board_id, item_id, 0);
            }
            return Err("FOREIGN KEY constraint failed".to_owned());
        }
        let now = match crate::db::clock_now() {
            Ok(n) => n,
            Err(e) => {
                return Err(e);
            },
        };
        let r = self.add_item_to_board_at(board_id, item_id, now);
        proof {
            let _j = old(self)@.join(board_id, item_id, now);
        }
        r
    }

    /// Removes an item from a board; off the favorites board the item is
    /// also unpinned.
    pub fn remove_item_from_board(&mut self, board_id: i64, item_id: i64) -> (r: Result<(), String>)
        requires
            old(self).wf(),
        ensures
            final(self).wf(),
            r is Ok,
            final(self)@ == old(self)@.leave(board_id, item_id),
    {
        let fav = self.favorites_board_id();
        self.unlink(board_id, item_id);
        if fav == Some(board_id) {
            self.pin(item_id, false);
        }
        Ok(())
    }

    /// The ids of the boards that an item is on, in membership order.
    pub fn get_board_ids_for_item(&self, item_id: i64) -> (r: Result<Vec<i64>, String>)
        ensures
            r matches Ok(v) && v@ == self@.members.filter(|m: Membership| m.item_id == item_id).map_values(
                |m: Membership| m.board_id,
            ),
    {
        let ghost pred = |m: Membership| m.item_id == item_id;
        let mut out: Vec<i64> = Vec::new();
        let mut k: usize = 0;
        while k < self.members.len()
            invariant
                0 <= k <= self.members@.len(),
                self@.members == self.members@,
                pred == (|m: Membership| m.item_id == item_id),
                out@ == self.members@.take(k as int).filter(pred).map_values(|m: Membership| m.board_id),
            decreases self.members.len() - k,
        {
            let m = self.members[k];
            proof {
                assert(self.members@.take(k + 1) =~= self.members@.take(k as int).push(m));
                self.members@.take(k as int).lemma_filter_push(m, pred);
            }
            if m.item_id == item_id {
                out.push(m.board_id);
                proof {
                    let f = self.members@.take(k as int).filter(pred);
                    assert(f.push(m).map_values(|m: Membership| m.board_id) =~= f.map_values(
                        |m: Membership| m.board_id,
                    ).push(m.board_id));
                }
            }
            k = k + 1;
        }
        proof {
            assert(self.members@.take(k as int) =~= self.members@);
        }
        Ok(out)
    }
}


impl Database {
    /// All boards: built-in first, then by sort order, then by id.
    pub fn list_boards(&self) -> (r: Result<Vec<Board>, String>)
        ensures
            r matches Ok(v) && v@.map_values(|b: Board| b@) == board_order(self@.boards).map_values(
                |k: SortKey| shown(self@.boards[k.3 as int]),
            ),
    {
        let mut keys: Vec<SortKey> = Vec::new();
        let mut i: usize = 0;
        while i < self.boards.len()
            invariant
                0 <= i <= self.boards@.len(),
                self@.boards.len() == self.boards@.len(),
                keys@ == board_keys_upto(self@.boards, i as int),
            decreases self.boards.len() - i,
        {
            let b = &self.boards[i];
            proof {
                assert(self@.boards[i as int] == b@);
            }
            let first: i128 = if b.is_builtin {
                -1
            } else {
                0
            };
            keys.push((first, b.sort_order as i128, b.id as i128, i));
            i = i + 1;
        }
        let nb = self.boards.len();
        proof {
            lemma_board_keys(self@.boards, nb as int);
        }
        let order = sort_keys(&keys);
        let mut out: Vec<Board> = Vec::new();
        let mut j: usize = 0;
        while j < order.len()
            invariant
                0 <= j <= order@.len(),
                order@ == board_order(self@.boards),
                forall|k: SortKey| #[trigger] order@.contains(k) ==> 0 <= k.3 < self@.boards.len(),
                self@.boards.len() == self.boards@.len(),
                out@.map_values(|b: Board| b@) == order@.take(j as int).map_values(
                    |k: SortKey| shown(self@.boards[k.3 as int]),
                ),
            decreases order.len() - j,
        {
            let k = order[j];
            proof {
                assert(order@.contains(k));
                assert(self@.boards[k.3 as int] == self.boards@[k.3 as int]@);
            }
            let b = self.boards[k.3].to_board();
            let ghost before = out@;
            out.push(b);
            proof {
                assert(order@.take(j + 1) =~= order@.take(j as int).push(k));
                assert(out@.map_values(|b: Board| b@) =~= before.map_values(|b: Board| b@).push(b@));
                assert(out@.map_values(|b: Board| b@) =~= order@.take(j + 1).map_values(
                    |k: SortKey| shown(self@.boards[k.3 as int]),
                ));
            }
            j = j + 1;
        }
        proof {
            assert(order@.take(order@.len() as int) =~= order@);
        }
        Ok(out)
    }

    fn next_board_order(&self) -> (r: i64)
        ensures
            r == next_order(self@.boards),
    {
        let mut m: Option<i64> = None;
        let mut i: usize = 0;
        while i < self.boards.len()
            invariant
                0 <= i <= self.boards@.len(),
                self@.boards.len() == self.boards@.len(),
                m == max_user_order(self@.boards, i as int),
            decreases self.boards.len() - i,
        {
            let b = &self.boards[i];
            proof {
                assert(self@.boards[i as int] == b@);
            }
            if !b.is_builtin {
                m = match m {
                    None => Some(b.sort_order),
                    Some(x) => Some(
                        if b.sort_order > x {
                            b.sort_order
                        } else {
                            x
                        },
                    ),
                };
            }
            i = i + 1;
        }
        match m {
            None => 1,
            Some(x) => if x == i64::MAX {
                1
            } else {
                x + 1
            },
        }
    }

    /// Creates a user board at time `now`, placed after the others. The name
    /// is trimmed and must not be empty.
    pub fn create_board_at(&mut self, name: &str, color: &str, now: i64) -> (r: Result<Board, String>)
        requires
            old(self).wf(),
        ensures
            final(self).wf(),
            match r {
                Ok(b) => {
                    &&& trim_seq(name@).len() > 0
                    &&& old(self)@.board_seq < i64::MAX
                    &&& b@ == ((old(self)@.board_seq + 1) as i64, trim_seq(name@), color@, next_order(old(self)@.boards), false)
                    &&& final(self)@ == (DbV {
                        boards: old(self)@.boards.push(
                            new_user_board((old(self)@.board_seq + 1) as i64, trim_seq(name@), color@, next_order(old(self)@.boards), now),
                        ),
                        board_seq: b.id,
                        ..old(self)@
                    })
                },
                Err(e) => final(self)@ == old(self)@ && if trim_seq(name@).len() == 0 {
                    e@ == "板名称不能为空"@
                } else {
                    old(self)@.board_seq == i64::MAX && e@ == full_msg()
                },
            },
    {
        let t = trim_str(name);
        if t.as_str().is_empty() {
            return Err("板名称不能为空".to_owned());
        }
        let order = self.next_board_order();
        if self.board_seq == i64::MAX {
            return Err("database or disk is full".to_owned());
        }
        let id = self.board_seq + 1;
        let row = BoardRow {
            id,
            name: t,
            color: color.to_owned(),
            sort_order: order,
            is_builtin: false,
            created_at: now,
        };
        let b = row.to_board();
        let ghost old_ids = self@.board_ids();
        self.boards.push(row);
        self.board_seq = id;
        proof {
            assert(self@.boards =~= old(self)@.boards.push(
                BoardV {
                    id: id,
                    name: trim_seq(name@),
                    color: color@,
                    sort_order: order,
                    is_builtin: false,
                    created_at: now,
                },
            ));
            assert(self@.board_ids() =~= old_ids.push(id));
            lemma_ids_push(old_ids, old(self)@.board_seq);
            let o = old(self)@;
            let n = self@;
            assert forall|q: int| 0 <= q < n.members.len() implies n.board_ids().contains(
                #[trigger] n.members[q].board_id,
            ) && n.item_ids().contains(n.members[q].item_id) by {
                assert(o.board_ids().contains(o.members[q].board_id));
                let w = choose|w: int| 0 <= w < old_ids.len() && old_ids[w] == o.members[q].board_id;
                assert(n.board_ids()[w] == old_ids[w]);
            }
        }
        Ok(b)
    }

    /// Creates a user board, now.
    pub fn create_board(&mut self, name: &str, color: &str) -> (r: Result<Board, String>)
        requires
            old(self).wf(),
        ensures
            final(self).wf(),
            (r matches Err(e0) && e0@ == crate::db::clock_msg() && final(self)@ == old(self)@) || exists|now: i64|
                now >= 0 && match r {
                    Ok(b) => {
                        &&& trim_seq(name@).len() > 0
                        &&& old(self)@.board_seq < i64::MAX
                        &&& b@ == ((old(self)@.board_seq + 1) as i64, trim_seq(name@), color@, next_order(old(self)@.boards), false)
                        &&& final(self)@ == (DbV {
                            boards: old(self)@.boards.push(
                                #[trigger] new_user_board((old(self)@.board_seq + 1) as i64, trim_seq(name@), color@, next_order(old(self)@.boards), now),
                            ),
                            board_seq: b.id,
                            ..old(self)@
                        })
                    },
                    Err(e) => final(self)@ == old(self)@ && if trim_seq(name@).len() == 0 {
                        e@ == "板名称不能为空"@
                    } else {
                        old(self)@.board_seq == i64::MAX && e@ == full_msg()
                    },
                },
    {
        let now = match crate::db::clock_now() {
            Ok(n) => n,
            Err(e) => {
                return Err(e);
            },
        };
        self.create_board_at(name, color, now)
    }

    fn change_board(&mut self, p: usize, row: BoardRow)
        requires
            old(self).wf(),
            p < old(self)@.boards.len(),
            row.id == old(self)@.boards[p as int].id,
        ensures
            final(self).wf(),
            final(self)@ == (DbV { boards: old(self)@.boards.update(p as int, row@), ..old(self)@ }),
    {
        self.boards.set(p, row);
        proof {
            assert(self@.boards =~= old(self)@.boards.update(p as int, row@));
            assert(self@.board_ids() =~= old(self)@.board_ids());
        }
    }

    /// Renames a user board; the name is trimmed and must not be empty.
    /// Built-in boards keep their name.
    pub fn rename_board(&mut self, id: i64, name: &str) -> (r: Result<(), String>)
        requires
            old(self).wf(),
        ensures
            final(self).wf(),
            match r {
                Ok(()) => trim_seq(name@).len() > 0 && final(self)@ == old(self)@.edit_board(
                    id,
                    |b: BoardV| BoardV { name: trim_seq(name@), ..b },
                    true,
                ),
                Err(e) => trim_seq(name@).len() == 0 && final(self)@ == old(self)@ && e@
                    == "板名称不能为空"@,
            },
    {
        let t = trim_str(name);
        if t.as_str().is_empty() {
            return Err("板名称不能为空".to_owned());
        }
        let p = self.find_board(id);
        if p < self.boards.len() && !self.boards[p].is_builtin {
            let mut row = self.boards[p].duplicate();
            proof {
                assert(self@.boards[p as int] == row@);
            }
            row.name = t;
            self.change_board(p, row);
        }
        Ok(())
    }

    /// Changes the color of a board (built-in boards too).
    pub fn recolor_board(&mut self, id: i64, color: &str) -> (r: Result<(), String>)
        requires
            old(self).wf(),
        ensures
            final(self).wf(),
            r is Ok,
            final(self)@ == old(self)@.edit_board(id, |b: BoardV| BoardV { color: color@, ..b }, false),
    {
        let p = self.find_board(id);
        if p < self.boards.len() {
            let mut row = self.boards[p].duplicate();
            proof {
                assert(self@.boards[p as int] == row@);
            }
            row.color = color.to_owned();
            self.change_board(p, row);
        }
        Ok(())
    }

    /// Deletes a user board and its memberships; the items stay. Built-in
    /// boards cannot be deleted.
    pub fn delete_board(&mut self, id: i64) -> (r: Result<(), String>)
        requires
            old(self).wf(),
        ensures
            final(self).wf(),
            r is Ok,
            final(self)@ == old(self)@.drop_board(id),
    {
        let p = self.find_board(id);
        if p >= self.boards.len() || self.boards[p].is_builtin {
            proof {
                if p < self@.boards.len() {
                    assert(self@.boards[p as int] == self.boards@[p as int]@);
                }
            }
            return Ok(());
        }
        proof {
            assert(self@.boards[p as int] == self.boards@[p as int]@);
        }
        let ghost old_ids = self@.board_ids();
        self.boards.remove(p);
        proof {
            assert(self@.boards =~= old(self)@.boards.remove(p as int));
            assert(self@.board_ids() =~= old_ids.remove(p as int));
            lemma_ids_remove(old_ids, self@.board_seq, p as int);
        }
        let ghost pred = |m: Membership| m.board_id != id;
        let mut kept: Vec<Membership> = Vec::new();
        let mut k: usize = 0;
        while k < self.members.len()
            invariant
                0 <= k <= self.members@.len(),
                self.members@ == old(self)@.members,
                pred == (|m: Membership| m.board_id != id),
                kept@ == self.members@.take(k as int).filter(pred),
            decreases self.members.len() - k,
        {
            let m = self.members[k];
            proof {
                assert(self.members@.take(k + 1) =~= self.members@.take(k as int).push(m));
                self.members@.take(k as int).lemma_filter_push(m, pred);
            }
            if m.board_id != id {
                kept.push(m);
            }
            k = k + 1;
        }
        proof {
            assert(self.members@.take(k as int) =~= self.members@);
        }
        self.members = kept;
        proof {
            let o = old(self)@;
            let n = self@;
            lemma_filter_members(o.members, pred);
            assert forall|j: int| 0 <= j < n.members.len() implies n.board_ids().contains(
                #[trigger] n.members[j].board_id,
            ) && n.item_ids().contains(n.members[j].item_id) by {
                let m = n.members[j];
                assert(o.members.filter(pred).contains(m));
                let i = choose|i: int| 0 <= i < o.members.len() && o.members[i] == m;
                assert(o.board_ids().contains(o.members[i].board_id));
                assert(o.item_ids().contains(o.members[i].item_id));
                assert(old_ids[p as int] == id);
            }
            assert(n == o.drop_board(id));
        }
        Ok(())
    }

    /// Gives the user boards named in `ordered_ids` the sort orders 1, 2, ...
    /// in that order.
    pub fn reorder_boards(&mut self, ordered_ids: &[i64]) -> (r: Result<(), String>)
        requires
            old(self).wf(),
            ordered_ids@.len() < i64::MAX,
        ensures
            final(self).wf(),
            r is Ok,
            final(self)@ == (DbV {
                boards: reordered(old(self)@.boards, ordered_ids@, ordered_ids@.len() as int),
                ..old(self)@
            }),
    {
        let mut idx: usize = 0;
        while idx < ordered_ids.len()
            invariant
                0 <= idx <= ordered_ids@.len() < i64::MAX,
                self.wf(),
                self@ == (DbV { boards: reordered(old(self)@.boards, ordered_ids@, idx as int), ..old(self)@ }),
            decreases ordered_ids.len() - idx,
        {
            let target = ordered_ids[idx];
            let ord: i64 = (idx + 1) as i64;
            let ghost prev = self@.boards;
            let ghost step = |b: BoardV|
                if b.id == ordered_ids@[idx as int] && !b.is_builtin {
                    BoardV { sort_order: (idx + 1) as i64, ..b }
                } else {
                    b
                };
            let mut q: usize = 0;
            while q < self.boards.len()
                invariant
                    0 <= q <= self.boards@.len(),
                    self@.boards.len() == prev.len() == self.boards@.len(),
                    self.wf(),
                    target == ordered_ids@[idx as int],
                    ord == idx + 1,
                    step == (|b: BoardV|
                        if b.id == ordered_ids@[idx as int] && !b.is_builtin {
                            BoardV { sort_order: (idx + 1) as i64, ..b }
                        } else {
                            b
                        }),
                    forall|z: int| 0 <= z < q ==> #[trigger] self@.boards[z] == step(prev[z]),
                    forall|z: int| q <= z < prev.len() ==> #[trigger] self@.boards[z] == prev[z],
                    self@ == (DbV { boards: self@.boards, ..old(self)@ }),
                decreases self.boards.len() - q,
            {
                proof {
                    assert(self@.boards[q as int] == self.boards@[q as int]@);
                }
                if self.boards[q].id == target && !self.boards[q].is_builtin {
                    let mut row = self.boards[q].duplicate();
                    row.sort_order = ord;
                    self.change_board(q, row);
                }
                q = q + 1;
            }
            proof {
                assert(self@.boards =~= prev.map_values(step));
            }
            idx = idx + 1;
        }
        Ok(())
    }

    /// Makes sure the favorites board exists (created at time `now` when
    /// missing), renames the old built-in name, and joins pinned items to it.
    pub fn ensure_favorites_board_at(&mut self, now: i64)
        requires
            old(self).wf(),
        ensures
            final(self).wf(),
            final(self)@ == old(self)@.with_favorites(now),
    {
        let fav_pos: usize = {
            let ghost p = |b: BoardV| b.is_builtin;
            let mut i: usize = 0;
            while i < self.boards.len() && !self.boards[i].is_builtin
                invariant
                    0 <= i <= self.boards@.len(),
                    self@.boards.len() == self.boards@.len(),
                    p == (|b: BoardV| b.is_builtin),
                    forall|j: int| 0 <= j < i ==> !p(#[trigger] self@.boards[j]),
                decreases self.boards.len() - i,
            {
                proof {
                    assert(self@.boards[i as int] == self.boards@[i as int]@);
                }
                i = i + 1;
            }
            proof {
                if i < self@.boards.len() {
                    assert(self@.boards[i as int] == self.boards@[i as int]@);
                }
                lemma_first_index(self@.boards, p, i as int);
            }
            i
        };
        let ghost renamed_f = |b: BoardV|
            if b.is_builtin && b.name == "收藏"@ {
                BoardV { name: fav_name(), ..b }
            } else {
                b
            };
        let fav: i64;
        if fav_pos < self.boards.len() {
            fav = self.boards[fav_pos].id;
            proof {
                assert(self@.boards[fav_pos as int] == self.boards@[fav_pos as int]@);
            }
            let mut q: usize = 0;
            while q < self.boards.len()
                invariant
                    0 <= q <= self.boards@.len(),
                    self@.boards.len() == old(self)@.boards.len() == self.boards@.len(),
                    self.wf(),
                    renamed_f == (|b: BoardV|
                        if b.is_builtin && b.name == "收藏"@ {
                            BoardV { name: fav_name(), ..b }
                        } else {
                            b
                        }),
                    forall|z: int| 0 <= z < q ==> #[trigger] self@.boards[z] == renamed_f(old(self)@.boards[z]),
                    forall|z: int| q <= z < self@.boards.len() ==> #[trigger] self@.boards[z] == old(self)@.boards[z],
                    self@ == (DbV { boards: self@.boards, ..old(self)@ }),
                decreases self.boards.len() - q,
            {
                proof {
                    assert(self@.boards[q as int] == self.boards@[q as int]@);
                    reveal_strlit("收藏");
                }
                if self.boards[q].is_builtin && crate::text::same_text(self.boards[q].name.as_str(), "收藏") {
                    let mut row = self.boards[q].duplicate();
                    row.name = "收藏夹".to_owned();
                    self.change_board(q, row);
                }
                q = q + 1;
            }
            proof {
                assert(self@.boards =~= old(self)@.boards.map_values(renamed_f));
                assert(self@ == (DbV { boards: old(self)@.boards.map_values(renamed_f), ..old(self)@ }));
                assert(old(self)@.fav_pos() == fav_pos);
                assert(fav == old(self)@.boards[fav_pos as int].id);
            }
        } else {
            if self.board_seq == i64::MAX {
                return;
            }
            let id = self.board_seq + 1;
            let ghost old_ids = self@.board_ids();
            self.boards.push(
                BoardRow {
                    id,
                    name: "收藏夹".to_owned(),
                    color: "#f5c518".to_owned(),
                    sort_order: 0,
                    is_builtin: true,
                    created_at: now,
                },
            );
            self.board_seq = id;
            fav = id;
            proof {
                assert(self@.board_ids() =~= old_ids.push(id));
                lemma_ids_push(old_ids, old(self)@.board_seq);
                let o = old(self)@;
                let n = self@;
                assert forall|q: int| 0 <= q < n.members.len() implies n.board_ids().contains(
                    #[trigger] n.members[q].board_id,
                ) && n.item_ids().contains(n.members[q].item_id) by {
                    assert(o.board_ids().contains(o.members[q].board_id));
                    let w = choose|w: int| 0 <= w < old_ids.len() && old_ids[w] == o.members[q].board_id;
                    assert(n.board_ids()[w] == old_ids[w]);
                }
                assert(o.boards.map_values(renamed_f) =~= o.boards) by {
                    assert forall|z: int| 0 <= z < o.boards.len() implies !o.boards[z].is_builtin by {
                        assert(!(|b: BoardV| b.is_builtin)(o.boards[z]));
                    }
                }
            }
        }
        let ghost mid = self@;
        proof {
            assert(mid.has_board(fav)) by {
                if fav_pos < old(self)@.boards.len() {
                    assert(mid.board_ids()[fav_pos as int] == fav);
                } else {
                    assert(mid.board_ids()[mid.boards.len() - 1] == fav);
                }
            }
        }
        let mut i: usize = 0;
        while i < self.items.len()
            invariant
                0 <= i <= self.items@.len(),
                self.wf(),
                mid.has_board(fav),
                self@ == mid.with_members(adopt_pinned(mid.members, mid.items, i as int, fav, now)),
                self@.items.len() == self.items@.len(),
            decreases self.items.len() - i,
        {
            proof {
                assert(self@.items[i as int] == self.items@[i as int]@);
            }
            if self.items[i].is_pinned {
                let iid = self.items[i].id;
                proof {
                    assert(self@.item_ids()[i as int] == iid);
                    assert(self@.board_ids() == mid.board_ids());
                }
                self.link(fav, iid, now);
            }
            i = i + 1;
        }
        proof {
            let o = old(self)@;
            if fav_pos < o.boards.len() {
                assert(o.fav_pos() < o.boards.len());
                assert(self@ == o.with_favorites(now));
            } else {
                assert(o.fav_pos() == o.boards.len());
                assert(self@.boards == o.boards.push(
                    BoardV {
                        id: fav,
                        name: fav_name(),
                        color: "#f5c518"@,
                        sort_order: 0,
                        is_builtin: true,
                        created_at: now,
                    },
                ));
                assert(self@ == o.with_favorites(now));
            }
        }
    }

    /// An empty database with its favorites board, made at time `now`.
    pub fn new_at(now: i64) -> (r: Database)
        ensures
            r.wf(),
            r@ == Database::empty_view().with_favorites(now),
    {
        let mut db = Database::empty();
        proof {
            assert(db@ == Database::empty_view());
        }
        db.ensure_favorites_board_at(now);
        db
    }

    /// An empty database with its favorites board, made now.
    pub fn new() -> (r: Result<Database, String>)
        ensures
            match r {
                Ok(db) => db.wf() && exists|now: i64|
                    now >= 0 && db@ == #[trigger] Database::empty_view().with_favorites(now),
                Err(e) => e@ == crate::db::clock_msg(),
            },
    {
        let now = match crate::db::clock_now() {
            Ok(n) => n,
            Err(e) => {
                return Err(e);
            },
        };
        Ok(Database::new_at(now))
    }
}
} // verus!
