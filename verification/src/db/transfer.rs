//! Export of the whole database, and merging an export back in.

use vstd::prelude::*;
use crate::keysort::SortKey;
use crate::model::{
    Board, BoardV, ClipboardItem, ConfigEntry, ExportBoard, ExportBoardV, ExportItem,
    ExportItemV, ExportTagRule, ExportTagRuleV, ItemV, Membership, RuleV, TagRule, BoardRow,
    copy_opt, ov, shown,
};
use super::{Database, DbV, first_index, lemma_first_index, lemma_ids_push};
use super::boards::{add_link, board_order};
use super::items::hash_is;
use super::rules::{full_msg, new_rule, rule_order};

verus! {

/// The values of export items.
pub open spec fn items_v(s: Seq<ExportItem>) -> Seq<ExportItemV> {
    s.map_values(|e: ExportItem| e@)
}

/// The values of export rules.
pub open spec fn rules_v(s: Seq<ExportTagRule>) -> Seq<ExportTagRuleV> {
    s.map_values(|e: ExportTagRule| e@)
}

/// The values of export boards.
pub open spec fn boards_v(s: Seq<ExportBoard>) -> Seq<ExportBoardV> {
    s.map_values(|e: ExportBoard| e@)
}

/// The name of the board with this id.
pub open spec fn board_name(db: DbV, board_id: i64) -> Seq<char> {
    db.boards[db.board_pos(board_id)].name
}

/// The names of the boards that an item is on, in membership order.
pub open spec fn item_boards(db: DbV, item_id: i64) -> Seq<Seq<char>> {
    db.members.filter(|m: Membership| m.item_id == item_id).map_values(
        |m: Membership| board_name(db, m.board_id),
    )
}

/// An item as exported: its fields, no image data yet, and its boards.
pub open spec fn exported(db: DbV, x: ItemV) -> ExportItemV {
    ExportItemV {
        content_type: x.content_type,
        content: x.content,
        content_hash: x.content_hash,
        tag: x.tag,
        created_at: x.created_at,
        updated_at: x.updated_at,
        is_pinned: x.is_pinned,
        use_count: x.use_count,
        last_used_at: x.last_used_at,
        source_app: x.source_app,
        source_app_name: x.source_app_name,
        image_base64: None,
        boards: item_boards(db, x.id),
        blob_path: x.blob_path,
    }
}

/// Whether a rule with this name exists.
pub open spec fn has_rule_named(rules: Seq<RuleV>, name: Seq<char>) -> bool {
    exists|k: int| 0 <= k < rules.len() && (#[trigger] rules[k]).name == name
}

/// Whether a board with this name exists.
pub open spec fn has_board_named(boards: Seq<BoardV>, name: Seq<char>) -> bool {
    exists|k: int| 0 <= k < boards.len() && (#[trigger] boards[k]).name == name
}

/// The id of the last board with this name.
pub open spec fn board_by_name(boards: Seq<BoardV>, name: Seq<char>) -> Option<i64>
    decreases boards.len(),
{
    if boards.len() == 0 {
        None
    } else if boards.last().name == name {
        Some(boards.last().id)
    } else {
        board_by_name(boards.drop_last(), name)
    }
}

/// The first `n` rules of an import merged in: a rule whose name exists is
/// skipped.
pub open spec fn import_rules(db: DbV, rs: Seq<ExportTagRuleV>, n: int) -> DbV
    decreases n,
{
    if n <= 0 {
        db
    } else {
        let d = import_rules(db, rs, n - 1);
        let r = rs[n - 1];
        if has_rule_named(d.rules, r.0) || d.rule_seq == i64::MAX {
            d
        } else {
            DbV {
                rules: d.rules.push(new_rule((d.rule_seq + 1) as i64, r.0, r.1, r.2, r.3, r.4)),
                rule_seq: (d.rule_seq + 1) as i64,
                ..d
            }
        }
    }
}

/// The first `n` boards of an import merged in at `now`: built-in boards
/// and boards whose name exists are skipped.
pub open spec fn import_boards(db: DbV, bs: Seq<ExportBoardV>, n: int, now: i64) -> DbV
    decreases n,
{
    if n <= 0 {
        db
    } else {
        let d = import_boards(db, bs, n - 1, now);
        let b = bs[n - 1];
        if b.3 || has_board_named(d.boards, b.0) || d.board_seq == i64::MAX {
            d
        } else {
            DbV {
                boards: d.boards.push(
                    BoardV {
                        id: (d.board_seq + 1) as i64,
                        name: b.0,
                        color: b.1,
                        sort_order: b.2,
                        is_builtin: false,
                        created_at: now,
                    },
                ),
                board_seq: (d.board_seq + 1) as i64,
                ..d
            }
        }
    }
}

/// Memberships of an item restored from board names; unknown names are
/// skipped.
pub open spec fn import_links(
    m: Seq<Membership>,
    names: Seq<Seq<char>>,
    n: int,
    boards: Seq<BoardV>,
    item_id: i64,
    now: i64,
) -> Seq<Membership>
    decreases n,
{
    if n <= 0 {
        m
    } else {
        let r = import_links(m, names, n - 1, boards, item_id, now);
        match board_by_name(boards, names[n - 1]) {
            Some(b) => add_link(r, b, item_id, now),
            None => r,
        }
    }
}

/// An imported item as stored.
pub open spec fn imported_item(id: i64, it: ExportItemV) -> ItemV {
    ItemV {
        id: id,
        content_type: it.content_type,
        content: it.content,
        content_hash: it.content_hash,
        blob_path: it.blob_path,
        tag: it.tag,
        created_at: it.created_at,
        updated_at: it.updated_at,
        is_pinned: it.is_pinned,
        use_count: it.use_count,
        last_used_at: it.last_used_at,
        source_app: it.source_app,
        source_app_name: it.source_app_name,
    }
}

/// The first `n` items of an import merged in at `now`, with the number of
/// items added: an item whose hash exists is not added again, but its
/// boards are restored. `None` when ids run out.
pub open spec fn import_items(db: DbV, its: Seq<ExportItemV>, n: int, now: i64) -> Option<(DbV, nat)>
    decreases n,
{
    if n <= 0 {
        Some((db, 0))
    } else {
        match import_items(db, its, n - 1, now) {
            None => None,
            Some((d, c)) => {
                let it = its[n - 1];
                let p = first_index(d.items, hash_is(it.content_hash));
                if p < d.items.len() {
                    Some(
                        (
                            d.with_members(
                                import_links(d.members, it.boards, it.boards.len() as int, d.boards, d.items[p].id, now),
                            ),
                            c,
                        ),
                    )
                } else if d.item_seq == i64::MAX {
                    None
                } else {
                    let id = (d.item_seq + 1) as i64;
                    let d2 = DbV { items: d.items.push(imported_item(id, it)), item_seq: id, ..d };
                    Some(
                        (
                            d2.with_members(
                                import_links(d2.members, it.boards, it.boards.len() as int, d2.boards, id, now),
                            ),
                            c + 1,
                        ),
                    )
                }
            },
        }
    }
}

proof fn lemma_import_none_stays(db: DbV, its: Seq<ExportItemV>, n: int, m: int, now: i64)
    requires
        0 <= n <= m,
        import_items(db, its, n, now) is None,
    ensures
        import_items(db, its, m, now) is None,
    decreases m - n,
{
    if m > n {
        lemma_import_none_stays(db, its, n, m - 1, now);
    }
}

impl DbV {
    /// The result of importing rules, then boards, then items, at `now`.
    pub open spec fn import(
        self,
        its: Seq<ExportItemV>,
        rs: Seq<ExportTagRuleV>,
        bs: Seq<ExportBoardV>,
        now: i64,
    ) -> Option<(DbV, nat)> {
        let d1 = import_rules(self, rs, rs.len() as int);
        let d2 = import_boards(d1, bs, bs.len() as int, now);
        import_items(d2, its, its.len() as int, now)
    }
}


impl Database {
    /// A copy of the whole database.
    pub(crate) fn copy(&self) -> (r: Database)
        ensures
            r@ == self@,
    {
        let mut items: Vec<ClipboardItem> = Vec::new();
        let mut i: usize = 0;
        while i < self.items.len()
            invariant
                0 <= i <= self.items@.len(),
                items@.map_values(|x: ClipboardItem| x@) == self.items@.take(i as int).map_values(|x: ClipboardItem| x@),
            decreases self.items.len() - i,
        {
            let x = self.items[i].duplicate();
            let ghost before = items@;
            items.push(x);
            proof {
                assert(self.items@.take(i + 1) =~= self.items@.take(i as int).push(self.items@[i as int]));
                assert(items@.map_values(|x: ClipboardItem| x@) =~= before.map_values(|x: ClipboardItem| x@).push(x@));
            }
            i = i + 1;
        }
        let mut rules: Vec<TagRule> = Vec::new();
        let mut j: usize = 0;
        while j < self.rules.len()
            invariant
                0 <= j <= self.rules@.len(),
                rules@.map_values(|x: TagRule| x@) == self.rules@.take(j as int).map_values(|x: TagRule| x@),
            decreases self.rules.len() - j,
        {
            let x = self.rules[j].duplicate();
            let ghost before = rules@;
            rules.push(x);
            proof {
                assert(self.rules@.take(j + 1) =~= self.rules@.take(j as int).push(self.rules@[j as int]));
                assert(rules@.map_values(|x: TagRule| x@) =~= before.map_values(|x: TagRule| x@).push(x@));
            }
            j = j + 1;
        }
        let mut boards: Vec<BoardRow> = Vec::new();
        let mut k: usize = 0;
        while k < self.boards.len()
            invariant
                0 <= k <= self.boards@.len(),
                boards@.map_values(|x: BoardRow| x@) == self.boards@.take(k as int).map_values(|x: BoardRow| x@),
            decreases self.boards.len() - k,
        {
            let x = self.boards[k].duplicate();
            let ghost before = boards@;
            boards.push(x);
            proof {
                assert(self.boards@.take(k + 1) =~= self.boards@.take(k as int).push(self.boards@[k as int]));
                assert(boards@.map_values(|x: BoardRow| x@) =~= before.map_values(|x: BoardRow| x@).push(x@));
            }
            k = k + 1;
        }
        let mut config: Vec<ConfigEntry> = Vec::new();
        let mut c: usize = 0;
        while c < self.config.len()
            invariant
                0 <= c <= self.config@.len(),
                config@.map_values(|e: ConfigEntry| (e.key@, e.value@)) == self.config@.take(c as int).map_values(
                    |e: ConfigEntry| (e.key@, e.value@),
                ),
            decreases self.config.len() - c,
        {
            let e = ConfigEntry { key: self.config[c].key.clone(), value: self.config[c].value.clone() };
            let ghost before = config@;
            config.push(e);
            proof {
                assert(self.config@.take(c + 1) =~= self.config@.take(c as int).push(self.config@[c as int]));
                assert(config@.map_values(|e: ConfigEntry| (e.key@, e.value@)) =~= before.map_values(
                    |e: ConfigEntry| (e.key@, e.value@),
                ).push((e.key@, e.value@)));
            }
            c = c + 1;
        }
        let mut members: Vec<Membership> = Vec::new();
        let mut m: usize = 0;
        while m < self.members.len()
            invariant
                0 <= m <= self.members@.len(),
                members@ == self.members@.take(m as int),
            decreases self.members.len() - m,
        {
            members.push(self.members[m]);
            proof {
                assert(self.members@.take(m + 1) =~= self.members@.take(m as int).push(self.members@[m as int]));
            }
            m = m + 1;
        }
        proof {
            assert(self.items@.take(i as int) =~= self.items@);
            assert(self.rules@.take(j as int) =~= self.rules@);
            assert(self.boards@.take(k as int) =~= self.boards@);
            assert(self.config@.take(c as int) =~= self.config@);
            assert(self.members@.take(m as int) =~= self.members@);
        }
        let r = Database {
            items,
            rules,
            boards,
            members,
            config,
            item_seq: self.item_seq,
            rule_seq: self.rule_seq,
            board_seq: self.board_seq,
        };
        proof {
            assert(r@.items =~= self@.items);
            assert(r@.rules =~= self@.rules);
            assert(r@.boards =~= self@.boards);
            assert(r@.config =~= self@.config);
        }
        r
    }

    /// The names of the boards that an item is on.
    fn boards_of(&self, item_id: i64) -> (r: Vec<String>)
        requires
            self.wf(),
        ensures
            r@.map_values(|b: String| b@) == item_boards(self@, item_id),
    {
        let ghost db = self@;
        let ghost pred = |m: Membership| m.item_id == item_id;
        let mut out: Vec<String> = Vec::new();
        let mut k: usize = 0;
        while k < self.members.len()
            invariant
                0 <= k <= self.members@.len(),
                self@ == db,
                db.wf(),
                db.members == self.members@,
                pred == (|m: Membership| m.item_id == item_id),
                out@.map_values(|b: String| b@) == db.members.take(k as int).filter(pred).map_values(
                    |m: Membership| board_name(db, m.board_id),
                ),
            decreases self.members.len() - k,
        {
            let m = self.members[k];
            proof {
                assert(db.members.take(k + 1) =~= db.members.take(k as int).push(m));
                db.members.take(k as int).lemma_filter_push(m, pred);
            }
            if m.item_id == item_id {
                let p = self.find_board(m.board_id);
                proof {
                    assert(db.board_ids().contains(db.members[k as int].board_id));
                    let w = choose|w: int| 0 <= w < db.board_ids().len() && db.board_ids()[w] == m.board_id;
                    super::lemma_first_index_bounds(db.boards, |b: BoardV| b.id == m.board_id);
                    assert((|b: BoardV| b.id == m.board_id)(db.boards[w]));
                    assert(db.boards[p as int] == self.boards@[p as int]@);
                }
                let name = self.boards[p].name.clone();
                let ghost before = out@;
                out.push(name);
                proof {
                    let f = db.members.take(k as int).filter(pred);
                    assert(out@.map_values(|b: String| b@) =~= before.map_values(|b: String| b@).push(name@));
                    assert(f.push(m).map_values(|m: Membership| board_name(db, m.board_id)) =~= f.map_values(
                        |m: Membership| board_name(db, m.board_id),
                    ).push(board_name(db, m.board_id)));
                }
            }
            k = k + 1;
        }
        proof {
            assert(db.members.take(k as int) =~= db.members);
        }
        out
    }

    /// All items in id order, each with the names of its boards, ready to
    /// be written to an export file.
    pub fn export_items(&self) -> (r: Result<Vec<ExportItem>, String>)
        requires
            self.wf(),
        ensures
            r matches Ok(v) && v@.map_values(|e: ExportItem| e@) == self@.items.map_values(
                |x: ItemV| exported(self@, x),
            ),
    {
        let mut out: Vec<ExportItem> = Vec::new();
        let mut i: usize = 0;
        while i < self.items.len()
            invariant
                0 <= i <= self.items@.len(),
                self.wf(),
                self@.items.len() == self.items@.len(),
                out@.map_values(|e: ExportItem| e@) == self@.items.take(i as int).map_values(
                    |x: ItemV| exported(self@, x),
                ),
            decreases self.items.len() - i,
        {
            let x = &self.items[i];
            proof {
                assert(self@.items[i as int] == x@);
            }
            let e = ExportItem {
                content_type: x.content_type.clone(),
                content: x.content.clone(),
                content_hash: x.content_hash.clone(),
                tag: copy_opt(&x.tag),
                created_at: x.created_at,
                updated_at: x.updated_at,
                is_pinned: x.is_pinned,
                use_count: x.use_count,
                last_used_at: x.last_used_at,
                source_app: copy_opt(&x.source_app),
                source_app_name: copy_opt(&x.source_app_name),
                image_base64: None,
                boards: self.boards_of(x.id),
                blob_path: copy_opt(&x.blob_path),
            };
            let ghost before = out@;
            out.push(e);
            proof {
                assert(e@ == exported(self@, x@));
                assert(self@.items.take(i + 1) =~= self@.items.take(i as int).push(x@));
                assert(out@.map_values(|e: ExportItem| e@) =~= before.map_values(|e: ExportItem| e@).push(e@));
            }
            i = i + 1;
        }
        proof {
            assert(self@.items.take(i as int) =~= self@.items);
        }
        Ok(out)
    }

    /// All tag rules, in listing order, ready to be written to an export file.
    pub fn export_tag_rules(&self) -> (r: Result<Vec<ExportTagRule>, String>)
        ensures
            r matches Ok(v) && v@.map_values(|e: ExportTagRule| e@) == rule_order(self@.rules).map_values(
                |k: SortKey| {
                    let t = self@.rules[k.3 as int];
                    (t.name, t.pattern, t.color, t.priority, t.expire_days)
                },
            ),
    {
        let rules = match self.get_tag_rules() {
            Ok(v) => v,
            Err(e) => {
                return Err(e);
            },
        };
        let ghost want = rule_order(self@.rules).map_values(|k: SortKey| self@.rules[k.3 as int]);
        let mut out: Vec<ExportTagRule> = Vec::new();
        let mut i: usize = 0;
        while i < rules.len()
            invariant
                0 <= i <= rules@.len(),
                rules@.map_values(|t: TagRule| t@) == want,
                want == rule_order(self@.rules).map_values(|k: SortKey| self@.rules[k.3 as int]),
                out@.map_values(|e: ExportTagRule| e@) == want.take(i as int).map_values(
                    |t: RuleV| (t.name, t.pattern, t.color, t.priority, t.expire_days),
                ),
            decreases rules.len() - i,
        {
            let t = &rules[i];
            proof {
                assert(want[i as int] == t@);
            }
            let e = ExportTagRule {
                name: t.name.clone(),
                pattern: t.pattern.clone(),
                color: t.color.clone(),
                priority: t.priority,
                expire_days: t.expire_days,
            };
            let ghost before = out@;
            out.push(e);
            proof {
                assert(want.take(i + 1) =~= want.take(i as int).push(want[i as int]));
                assert(out@.map_values(|e: ExportTagRule| e@) =~= before.map_values(|e: ExportTagRule| e@).push(e@));
            }
            i = i + 1;
        }
        proof {
            assert(want.take(i as int) =~= want);
            assert(out@.map_values(|e: ExportTagRule| e@) =~= rule_order(self@.rules).map_values(
                |k: SortKey| {
                    let t = self@.rules[k.3 as int];
                    (t.name, t.pattern, t.color, t.priority, t.expire_days)
                },
            ));
        }
        Ok(out)
    }

    /// All boards, in listing order, ready to be written to an export file.
    pub fn export_boards(&self) -> (r: Result<Vec<ExportBoard>, String>)
        ensures
            r matches Ok(v) && v@.map_values(|e: ExportBoard| e@) == board_order(self@.boards).map_values(
                |k: SortKey| {
                    let b = self@.boards[k.3 as int];
                    (b.name, b.color, b.sort_order, b.is_builtin)
                },
            ),
    {
        let boards = match self.list_boards() {
            Ok(v) => v,
            Err(e) => {
                return Err(e);
            },
        };
        let ghost want = board_order(self@.boards).map_values(|k: SortKey| shown(self@.boards[k.3 as int]));
        let mut out: Vec<ExportBoard> = Vec::new();
        let mut i: usize = 0;
        while i < boards.len()
            invariant
                0 <= i <= boards@.len(),
                boards@.map_values(|b: Board| b@) == want,
                want == board_order(self@.boards).map_values(|k: SortKey| shown(self@.boards[k.3 as int])),
                out@.map_values(|e: ExportBoard| e@) == want.take(i as int).map_values(
                    |b: crate::model::BoardShown| (b.1, b.2, b.3, b.4),
                ),
            decreases boards.len() - i,
        {
            let b = &boards[i];
            proof {
                assert(want[i as int] == b@);
            }
            let e = ExportBoard {
                name: b.name.clone(),
                color: b.color.clone(),
                sort_order: b.sort_order,
                is_builtin: b.is_builtin,
            };
            let ghost before = out@;
            out.push(e);
            proof {
                assert(want.take(i + 1) =~= want.take(i as int).push(want[i as int]));
                assert(out@.map_values(|e: ExportBoard| e@) =~= before.map_values(|e: ExportBoard| e@).push(e@));
            }
            i = i + 1;
        }
        proof {
            assert(want.take(i as int) =~= want);
            assert(out@.map_values(|e: ExportBoard| e@) =~= board_order(self@.boards).map_values(
                |k: SortKey| {
                    let b = self@.boards[k.3 as int];
                    (b.name, b.color, b.sort_order, b.is_builtin)
                },
            ));
        }
        Ok(out)
    }
}

proof fn lemma_board_by_name(boards: Seq<BoardV>, name: Seq<char>)
    ensures
        board_by_name(boards, name) matches Some(b) ==> boards.map_values(|x: BoardV| x.id).contains(b),
    decreases boards.len(),
{
    if boards.len() > 0 {
        lemma_board_by_name(boards.drop_last(), name);
        if boards.last().name != name {
            if let Some(b) = board_by_name(boards.drop_last(), name) {
                let ids = boards.drop_last().map_values(|x: BoardV| x.id);
                let w = choose|w: int| 0 <= w < ids.len() && ids[w] == b;
                assert(boards.map_values(|x: BoardV| x.id)[w] == b);
            }
        } else {
            assert(boards.map_values(|x: BoardV| x.id)[boards.len() - 1] == boards.last().id);
        }
    }
}

impl Database {
    fn find_board_named(&self, name: &String) -> (r: Option<i64>)
        ensures
            r == board_by_name(self@.boards, name@),
    {
        let mut i: usize = self.boards.len();
        proof {
            assert(self@.boards.take(i as int) =~= self@.boards);
        }
        while i > 0
            invariant
                0 <= i <= self.boards@.len(),
                self@.boards.len() == self.boards@.len(),
                board_by_name(self@.boards, name@) == board_by_name(self@.boards.take(i as int), name@),
            decreases i,
        {
            let b = &self.boards[i - 1];
            proof {
                assert(self@.boards[i - 1] == b@);
                let t = self@.boards.take(i as int);
                assert(t.last() == b@);
                assert(t.drop_last() =~= self@.boards.take(i - 1));
            }
            if b.name == *name {
                return Some(b.id);
            }
            i = i - 1;
        }
        None
    }

    fn has_rule_named_exec(&self, name: &String) -> (r: bool)
        ensures
            r == has_rule_named(self@.rules, name@),
    {
        let mut k: usize = 0;
        while k < self.rules.len()
            invariant
                0 <= k <= self.rules@.len(),
                self@.rules.len() == self.rules@.len(),
                forall|j: int| 0 <= j < k ==> (#[trigger] self@.rules[j]).name != name@,
            decreases self.rules.len() - k,
        {
            proof {
                assert(self@.rules[k as int] == self.rules@[k as int]@);
            }
            if self.rules[k].name == *name {
                return true;
            }
            k = k + 1;
        }
        false
    }

    fn has_board_named_exec(&self, name: &String) -> (r: bool)
        ensures
            r == has_board_named(self@.boards, name@),
    {
        let mut k: usize = 0;
        while k < self.boards.len()
            invariant
                0 <= k <= self.boards@.len(),
                self@.boards.len() == self.boards@.len(),
                forall|j: int| 0 <= j < k ==> (#[trigger] self@.boards[j]).name != name@,
            decreases self.boards.len() - k,
        {
            proof {
                assert(self@.boards[k as int] == self.boards@[k as int]@);
            }
            if self.boards[k].name == *name {
                return true;
            }
            k = k + 1;
        }
        false
    }

    /// Joins an item to the boards named in `names` that exist.
    fn restore_links(&mut self, names: &Vec<String>, item_id: i64, now: i64)
        requires
            old(self).wf(),
            old(self)@.has_item(item_id),
        ensures
            final(self).wf(),
            final(self)@ == old(self)@.with_members(
                import_links(
                    old(self)@.members,
                    names@.map_values(|b: String| b@),
                    names@.len() as int,
                    old(self)@.boards,
                    item_id,
                    now,
                ),
            ),
    {
        let ghost base = self@;
        let ghost nm = names@.map_values(|b: String| b@);
        let mut j: usize = 0;
        while j < names.len()
            invariant
                0 <= j <= names@.len(),
                nm.len() == names@.len(),
                nm == names@.map_values(|b: String| b@),
                self.wf(),
                base.has_item(item_id),
                self@ == base.with_members(import_links(base.members, nm, j as int, base.boards, item_id, now)),
            decreases names.len() - j,
        {
            let found = self.find_board_named(&names[j]);
            proof {
                assert(nm[j as int] == names@[j as int]@);
                lemma_board_by_name(base.boards, nm[j as int]);
            }
            match found {
                Some(b) => {
                    self.link(b, item_id, now);
                },
                None => {},
            }
            j = j + 1;
        }
    }

    /// Merges an export into the database at time `now`, as one transaction:
    /// rules and boards whose names exist are skipped, items whose hash
    /// exists are not added again, and board memberships are restored by
    /// board name. Returns how many items were added.
    pub fn import_all_at(
        &mut self,
        items: &[ExportItem],
        tag_rules: &[ExportTagRule],
        boards: &[ExportBoard],
        now: i64,
    ) -> (r: Result<usize, String>)
        requires
            old(self).wf(),
        ensures
            final(self).wf(),
            match r {
                Ok(c) => old(self)@.import(
                    items_v(items@),
                    rules_v(tag_rules@),
                    boards_v(boards@),
                    now,
                ) == Some((final(self)@, c as nat)),
                Err(e) => old(self)@.import(
                    items_v(items@),
                    rules_v(tag_rules@),
                    boards_v(boards@),
                    now,
                ) is None && final(self)@ == old(self)@ && e@ == full_msg(),
            },
    {
        let ghost its = items_v(items@);
        let ghost rs = rules_v(tag_rules@);
        let ghost bs = boards_v(boards@);
        let mut work = self.copy();
        // 1. rules, skipped by name
        let mut i: usize = 0;
        while i < tag_rules.len()
            invariant
                0 <= i <= tag_rules@.len(),
                rs == rules_v(tag_rules@),
                work.wf(),
                work@ == import_rules(old(self)@, rs, i as int),
            decreases tag_rules.len() - i,
        {
            let r = &tag_rules[i];
            proof {
                assert(rs[i as int] == r@);
            }
            if !work.has_rule_named_exec(&r.name) && work.rule_seq < i64::MAX {
                let id = work.rule_seq + 1;
                let t = TagRule {
                    id,
                    name: r.name.clone(),
                    pattern: r.pattern.clone(),
                    color: r.color.clone(),
                    priority: r.priority,
                    expire_days: r.expire_days,
                };
                let ghost old_ids = work@.rule_ids();
                let ghost prev = work@;
                work.rules.push(t);
                work.rule_seq = id;
                proof {
                    assert(work@.rules =~= prev.rules.push(new_rule(id, r.name@, r.pattern@, r.color@, r.priority, r.expire_days)));
                    assert(work@.rule_ids() =~= old_ids.push(id));
                    lemma_ids_push(old_ids, prev.rule_seq);
                }
            }
            i = i + 1;
        }
        // 2. user boards, skipped by name
        let mut b: usize = 0;
        while b < boards.len()
            invariant
                0 <= b <= boards@.len(),
                bs == boards_v(boards@),
                rs == rules_v(tag_rules@),
                work.wf(),
                work@ == import_boards(import_rules(old(self)@, rs, rs.len() as int), bs, b as int, now),
            decreases boards.len() - b,
        {
            let eb = &boards[b];
            proof {
                assert(bs[b as int] == eb@);
            }
            if !eb.is_builtin && !work.has_board_named_exec(&eb.name) && work.board_seq < i64::MAX {
                let id = work.board_seq + 1;
                let row = BoardRow {
                    id,
                    name: eb.name.clone(),
                    color: eb.color.clone(),
                    sort_order: eb.sort_order,
                    is_builtin: false,
                    created_at: now,
                };
                let ghost old_ids = work@.board_ids();
                let ghost prev = work@;
                work.boards.push(row);
                work.board_seq = id;
                proof {
                    assert(work@.boards =~= prev.boards.push(
                        BoardV {
                            id: id,
                            name: eb.name@,
                            color: eb.color@,
                            sort_order: eb.sort_order,
                            is_builtin: false,
                            created_at: now,
                        },
                    ));
                    assert(work@.board_ids() =~= old_ids.push(id));
                    lemma_ids_push(old_ids, prev.board_seq);
                    let n = work@;
                    assert forall|q: int| 0 <= q < n.members.len() implies n.board_ids().contains(
                        #[trigger] n.members[q].board_id,
                    ) && n.item_ids().contains(n.members[q].item_id) by {
                        assert(prev.board_ids().contains(prev.members[q].board_id));
                        let w = choose|w: int| 0 <= w < old_ids.len() && old_ids[w] == prev.members[q].board_id;
                        assert(n.board_ids()[w] == old_ids[w]);
                    }
                }
            }
            b = b + 1;
        }
        let ghost d2 = work@;
        // 3. items, skipped by hash; boards restored by name
        let mut count: usize = 0;
        let mut k: usize = 0;
        while k < items.len()
            invariant
                0 <= k <= items@.len(),
                count <= k,
                its == items_v(items@),
                work.wf(),
                import_items(d2, its, k as int, now) == Some((work@, count as nat)),
                rs == rules_v(tag_rules@),
                bs == boards_v(boards@),
                d2 == import_boards(import_rules(old(self)@, rs, rs.len() as int), bs, bs.len() as int, now),
                old(self).wf(),
                self@ == old(self)@,
            decreases items.len() - k,
        {
            let it = &items[k];
            proof {
                assert(its[k as int] == it@);
            }
            let p = work.find_hash(&it.content_hash);
            let item_id: i64;
            if p < work.items.len() {
                item_id = work.items[p].id;
                proof {
                    assert(work@.items[p as int] == work.items@[p as int]@);
                    assert(work@.item_ids()[p as int] == item_id);
                }
            } else {
                if work.item_seq == i64::MAX {
                    proof {
                        assert(import_items(d2, its, k + 1, now) is None);
                        lemma_import_none_stays(d2, its, k + 1, its.len() as int, now);
                    }
                    return Err("database or disk is full".to_owned());
                }
                let id = work.item_seq + 1;
                let x = ClipboardItem {
                    id,
                    content_type: it.content_type.clone(),
                    content: it.content.clone(),
                    content_hash: it.content_hash.clone(),
                    blob_path: copy_opt(&it.blob_path),
                    tag: copy_opt(&it.tag),
                    created_at: it.created_at,
                    updated_at: it.updated_at,
                    is_pinned: it.is_pinned,
                    use_count: it.use_count,
                    last_used_at: it.last_used_at,
                    source_app: copy_opt(&it.source_app),
                    source_app_name: copy_opt(&it.source_app_name),
                };
                let ghost old_ids = work@.item_ids();
                let ghost prev = work@;
                work.items.push(x);
                work.item_seq = id;
                proof {
                    assert(work@.items =~= prev.items.push(imported_item(id, it@)));
                    assert(work@.item_ids() =~= old_ids.push(id));
                    lemma_ids_push(old_ids, prev.item_seq);
                    let n = work@;
                    assert forall|q: int| 0 <= q < n.members.len() implies n.board_ids().contains(
                        #[trigger] n.members[q].board_id,
                    ) && n.item_ids().contains(n.members[q].item_id) by {
                        assert(prev.board_ids().contains(prev.members[q].board_id));
                        assert(prev.item_ids().contains(prev.members[q].item_id));
                        let w = choose|w: int| 0 <= w < old_ids.len() && old_ids[w] == prev.members[q].item_id;
                        assert(n.item_ids()[w] == old_ids[w]);
                    }
                    assert(n.item_ids()[n.items.len() - 1] == id);
                }
                item_id = id;
                count = count + 1;
            }
            work.restore_links(&it.boards, item_id, now);
            k = k + 1;
        }
        *self = work;
        Ok(count)
    }

    /// Merges an export into the database, now.
    pub fn import_all(
        &mut self,
        items: &[ExportItem],
        tag_rules: &[ExportTagRule],
        boards: &[ExportBoard],
    ) -> (r: Result<usize, String>)
        requires
            old(self).wf(),
        ensures
            final(self).wf(),
            (r matches Err(e0) && e0@ == crate::db::clock_msg() && final(self)@ == old(self)@) || exists|now: i64|
                now >= 0 && match r {
                    Ok(c) => #[trigger] old(self)@.import(
                        items_v(items@),
                        rules_v(tag_rules@),
                        boards_v(boards@),
                        now,
                    ) == Some((final(self)@, c as nat)),
                    Err(e) => old(self)@.import(
                        items_v(items@),
                        rules_v(tag_rules@),
                        boards_v(boards@),
                        now,
                    ) is None && final(self)@ == old(self)@ && e@ == full_msg(),
                },
    {
        let now = match crate::db::clock_now() {
            Ok(n) => n,
            Err(e) => {
                return Err(e);
            },
        };
        self.import_all_at(items, tag_rules, boards, now)
    }
}
} // verus!
