//! Reading the tables out of a database and building a database from
//! stored tables, for keeping it on disk.

use vstd::prelude::*;
use crate::model::{BoardRow, BoardV, ClipboardItem, ConfigEntry, ItemV, Membership, RuleV, TagRule};
use super::{Database, DbV, ids_ok, links_ok, pairs_unique};

verus! {

fn check_ids(ids: &Vec<i64>, seq: i64) -> (r: bool)
    ensures
        r == ids_ok(ids@, seq),
{
    if seq < 0 {
        return false;
    }
    let mut i: usize = 0;
    while i < ids.len()
        invariant
            0 <= i <= ids@.len(),
            seq >= 0,
            forall|j: int| 0 <= j < i ==> 0 < #[trigger] ids@[j] <= seq,
            forall|a: int, b: int| 0 <= a < b < i ==> ids@[a] < ids@[b],
        decreases ids.len() - i,
    {
        if ids[i] <= 0 || ids[i] > seq {
            return false;
        }
        if i > 0 && ids[i - 1] >= ids[i] {
            return false;
        }
        i = i + 1;
    }
    true
}

fn contains_id(ids: &Vec<i64>, id: i64) -> (r: bool)
    ensures
        r == ids@.contains(id),
{
    let mut i: usize = 0;
    while i < ids.len()
        invariant
            0 <= i <= ids@.len(),
            forall|j: int| 0 <= j < i ==> ids@[j] != id,
        decreases ids.len() - i,
    {
        if ids[i] == id {
            return true;
        }
        i = i + 1;
    }
    false
}

fn check_links(members: &Vec<Membership>, item_ids: &Vec<i64>, board_ids: &Vec<i64>) -> (r: bool)
    ensures
        r == links_ok(members@, item_ids@, board_ids@),
{
    let mut k: usize = 0;
    while k < members.len()
        invariant
            0 <= k <= members@.len(),
            forall|j: int|
                0 <= j < k ==> board_ids@.contains(#[trigger] members@[j].board_id) && item_ids@.contains(
                    members@[j].item_id,
                ),
            forall|a: int, b: int|
                0 <= a < b < k ==> !(#[trigger] members@[a].board_id == #[trigger] members@[b].board_id
                    && members@[a].item_id == members@[b].item_id),
        decreases members.len() - k,
    {
        let m = members[k];
        if !contains_id(board_ids, m.board_id) || !contains_id(item_ids, m.item_id) {
            return false;
        }
        let mut l: usize = 0;
        while l < k
            invariant
                0 <= l <= k < members@.len(),
                m == members@[k as int],
                forall|a: int| 0 <= a < l ==> !(members@[a].board_id == m.board_id && members@[a].item_id == m.item_id),
            decreases k - l,
        {
            if members[l].board_id == m.board_id && members[l].item_id == m.item_id {
                proof {
                    assert(!pairs_unique(members@)) by {
                        assert(members@[l as int].board_id == members@[k as int].board_id);
                    }
                }
                return false;
            }
            l = l + 1;
        }
        k = k + 1;
    }
    true
}

impl Database {
    /// The items, in id order.
    pub fn items(&self) -> (r: &Vec<ClipboardItem>)
        ensures
            r@.map_values(|x: ClipboardItem| x@) == self@.items,
    {
        &self.items
    }

    /// The tag rules, in id order.
    pub fn rules(&self) -> (r: &Vec<TagRule>)
        ensures
            r@.map_values(|x: TagRule| x@) == self@.rules,
    {
        &self.rules
    }

    /// The boards, in id order.
    pub fn boards(&self) -> (r: &Vec<BoardRow>)
        ensures
            r@.map_values(|x: BoardRow| x@) == self@.boards,
    {
        &self.boards
    }

    /// The board memberships.
    pub fn memberships(&self) -> (r: &Vec<Membership>)
        ensures
            r@ == self@.members,
    {
        &self.members
    }

    /// The configuration entries.
    pub fn config_entries(&self) -> (r: &Vec<ConfigEntry>)
        ensures
            r@.map_values(|e: ConfigEntry| (e.key@, e.value@)) == self@.config,
    {
        &self.config
    }

    /// The largest item, rule and board ids ever given out.
    pub fn id_counters(&self) -> (r: (i64, i64, i64))
        ensures
            r == (self@.item_seq, self@.rule_seq, self@.board_seq),
    {
        (self.item_seq, self.rule_seq, self.board_seq)
    }

    /// A database from stored tables; `None` when they break the
    /// database's invariant (ids out of order or above their counter,
    /// memberships of missing rows, a membership twice).
    pub fn from_parts(
        items: Vec<ClipboardItem>,
        rules: Vec<TagRule>,
        boards: Vec<BoardRow>,
        members: Vec<Membership>,
        config: Vec<ConfigEntry>,
        item_seq: i64,
        rule_seq: i64,
        board_seq: i64,
    ) -> (r: Option<Database>)
        ensures
            match r {
                Some(db) => db.wf() && db@ == (DbV {
                    items: items@.map_values(|x: ClipboardItem| x@),
                    rules: rules@.map_values(|x: TagRule| x@),
                    boards: boards@.map_values(|x: BoardRow| x@),
                    members: members@,
                    config: config@.map_values(|e: ConfigEntry| (e.key@, e.value@)),
                    item_seq,
                    rule_seq,
                    board_seq,
                }),
                None => !(DbV {
                    items: items@.map_values(|x: ClipboardItem| x@),
                    rules: rules@.map_values(|x: TagRule| x@),
                    boards: boards@.map_values(|x: BoardRow| x@),
                    members: members@,
                    config: config@.map_values(|e: ConfigEntry| (e.key@, e.value@)),
                    item_seq,
                    rule_seq,
                    board_seq,
                }).wf(),
            },
    {
        let db = Database { items, rules, boards, members, config, item_seq, rule_seq, board_seq };
        let mut iids: Vec<i64> = Vec::new();
        let mut i: usize = 0;
        while i < db.items.len()
            invariant
                0 <= i <= db.items@.len(),
                iids@ == db@.item_ids().take(i as int),
                db@.items.len() == db.items@.len(),
            decreases db.items.len() - i,
        {
            iids.push(db.items[i].id);
            proof {
                assert(db@.item_ids().take(i + 1) =~= db@.item_ids().take(i as int).push(db.items@[i as int].id));
            }
            i = i + 1;
        }
        let mut rids: Vec<i64> = Vec::new();
        let mut j: usize = 0;
        while j < db.rules.len()
            invariant
                0 <= j <= db.rules@.len(),
                rids@ == db@.rule_ids().take(j as int),
                db@.rules.len() == db.rules@.len(),
            decreases db.rules.len() - j,
        {
            rids.push(db.rules[j].id);
            proof {
                assert(db@.rule_ids().take(j + 1) =~= db@.rule_ids().take(j as int).push(db.rules@[j as int].id));
            }
            j = j + 1;
        }
        let mut bids: Vec<i64> = Vec::new();
        let mut k: usize = 0;
        while k < db.boards.len()
            invariant
                0 <= k <= db.boards@.len(),
                bids@ == db@.board_ids().take(k as int),
                db@.boards.len() == db.boards@.len(),
            decreases db.boards.len() - k,
        {
            bids.push(db.boards[k].id);
            proof {
                assert(db@.board_ids().take(k + 1) =~= db@.board_ids().take(k as int).push(db.boards@[k as int].id));
            }
            k = k + 1;
        }
        proof {
            assert(iids@ =~= db@.item_ids());
            assert(rids@ =~= db@.rule_ids());
            assert(bids@ =~= db@.board_ids());
        }
        if check_ids(&iids, db.item_seq) && check_ids(&rids, db.rule_seq) && check_ids(&bids, db.board_seq)
            && check_links(&db.members, &iids, &bids) {
            Some(db)
        } else {
            None
        }
    }
}

} // verus!
