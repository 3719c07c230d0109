//! A verified in-memory model of the clipboard database: history items,
//! tag rules, boards, board memberships and configuration entries, with the
//! operations that the clipboard manager performs on them.

use vstd::prelude::*;
use crate::model::{
    BoardRow, BoardV, ClipboardItem, ConfigEntry, ItemV, Membership, RuleV, TagRule,
};

pub mod items;
pub mod rules;
pub mod boards;
pub mod expire;
pub mod transfer;
pub mod restore;

verus! {

/// The clipboard database.
pub struct Database {
    pub(crate) items: Vec<ClipboardItem>,
    pub(crate) rules: Vec<TagRule>,
    pub(crate) boards: Vec<BoardRow>,
    pub(crate) members: Vec<Membership>,
    pub(crate) config: Vec<ConfigEntry>,
    pub(crate) item_seq: i64,
    pub(crate) rule_seq: i64,
    pub(crate) board_seq: i64,
}

/// The mathematical value of a [`Database`]: its tables, in row-id order,
/// and the largest row id ever given out in each table that counts ids.
pub struct DbV {
    pub items: Seq<ItemV>,
    pub rules: Seq<RuleV>,
    pub boards: Seq<BoardV>,
    pub members: Seq<Membership>,
    pub config: Seq<(Seq<char>, Seq<char>)>,
    pub item_seq: i64,
    pub rule_seq: i64,
    pub board_seq: i64,
}

impl View for Database {
    type V = DbV;

    closed spec fn view(&self) -> DbV {
        DbV {
            items: self.items@.map_values(|x: ClipboardItem| x@),
            rules: self.rules@.map_values(|x: TagRule| x@),
            boards: self.boards@.map_values(|x: BoardRow| x@),
            members: self.members@,
            config: self.config@.map_values(|e: ConfigEntry| (e.key@, e.value@)),
            item_seq: self.item_seq,
            rule_seq: self.rule_seq,
            board_seq: self.board_seq,
        }
    }
}

/// The message when the clock cannot be read as seconds since 1970.
pub open spec fn clock_msg() -> Seq<char> {
    "system time before Unix epoch"@
}

/// The current time in seconds since 1970, or an error when the clock is
/// before 1970 (or beyond what an `i64` holds).
pub fn clock_now() -> (r: Result<i64, String>)
    ensures
        match r {
            Ok(n) => n >= 0,
            Err(e) => e@ == clock_msg(),
        },
{
    proof {
        reveal_strlit("system time before Unix epoch");
    }
    match crate::outside::unix_now() {
        Some(s) => {
            if s <= 9223372036854775807u64 {
                Ok(s as i64)
            } else {
                Err("system time before Unix epoch".to_owned())
            }
        },
        None => Err("system time before Unix epoch".to_owned()),
    }
}

/// The position of the first element that satisfies `p`, or the length of
/// the sequence when none does.
pub open spec fn first_index<A>(s: Seq<A>, p: spec_fn(A) -> bool) -> int
    decreases s.len(),
{
    if s.len() == 0 {
        0
    } else if p(s[0]) {
        0
    } else {
        1 + first_index(s.drop_first(), p)
    }
}

pub proof fn lemma_first_index<A>(s: Seq<A>, p: spec_fn(A) -> bool, i: int)
    requires
        0 <= i <= s.len(),
        forall|j: int| 0 <= j < i ==> !p(#[trigger] s[j]),
        i == s.len() || p(s[i]),
    ensures
        first_index(s, p) == i,
    decreases i,
{
    if i > 0 {
        let t = s.drop_first();
        assert(!p(s[0]));
        assert forall|j: int| 0 <= j < i - 1 implies !p(#[trigger] t[j]) by {
            assert(t[j] == s[j + 1]);
        }
        if i < s.len() {
            assert(t[i - 1] == s[i]);
        }
        lemma_first_index(t, p, i - 1);
    }
}

pub proof fn lemma_first_index_bounds<A>(s: Seq<A>, p: spec_fn(A) -> bool)
    ensures
        0 <= first_index(s, p) <= s.len(),
        first_index(s, p) < s.len() ==> p(s[first_index(s, p)]),
        forall|j: int| 0 <= j < first_index(s, p) ==> !p(#[trigger] s[j]),
    decreases s.len(),
{
    if s.len() > 0 && !p(s[0]) {
        let t = s.drop_first();
        lemma_first_index_bounds(t, p);
        assert forall|j: int| 0 <= j < first_index(s, p) implies !p(#[trigger] s[j]) by {
            if j > 0 {
                assert(s[j] == t[j - 1]);
            }
        }
    }
}

/// The value of the first configuration entry with this key.
pub open spec fn cfg_get(c: Seq<(Seq<char>, Seq<char>)>, key: Seq<char>) -> Option<Seq<char>>
    decreases c.len(),
{
    if c.len() == 0 {
        None
    } else if c[0].0 == key {
        Some(c[0].1)
    } else {
        cfg_get(c.drop_first(), key)
    }
}

/// The configuration with `key` set to `value`: the first entry with that
/// key takes the new value, or a new entry is added at the end.
pub open spec fn cfg_put(c: Seq<(Seq<char>, Seq<char>)>, key: Seq<char>, value: Seq<char>) -> Seq<
    (Seq<char>, Seq<char>),
>
    decreases c.len(),
{
    if c.len() == 0 {
        seq![(key, value)]
    } else if c[0].0 == key {
        seq![(key, value)] + c.drop_first()
    } else {
        seq![c[0]] + cfg_put(c.drop_first(), key, value)
    }
}

/// Whether every membership names an existing board and item, and no
/// (board, item) pair occurs twice.
pub open spec fn links_ok(members: Seq<Membership>, item_ids: Seq<i64>, board_ids: Seq<i64>) -> bool {
    &&& forall|k: int|
        0 <= k < members.len() ==> board_ids.contains(#[trigger] members[k].board_id)
            && item_ids.contains(members[k].item_id)
    &&& pairs_unique(members)
}

/// The test that a row has the given id.
pub open spec fn id_is(id: i64) -> spec_fn(ItemV) -> bool {
    |x: ItemV| x.id == id
}

/// Whether ids are positive, strictly ascending and at most `seq`.
pub open spec fn ids_ok(ids: Seq<i64>, seq: i64) -> bool {
    &&& seq >= 0
    &&& forall|i: int| 0 <= i < ids.len() ==> 0 < #[trigger] ids[i] <= seq
    &&& forall|i: int, j: int| 0 <= i < j < ids.len() ==> ids[i] < ids[j]
}

impl DbV {
    pub open spec fn item_ids(self) -> Seq<i64> {
        self.items.map_values(|x: ItemV| x.id)
    }

    pub open spec fn rule_ids(self) -> Seq<i64> {
        self.rules.map_values(|x: RuleV| x.id)
    }

    pub open spec fn board_ids(self) -> Seq<i64> {
        self.boards.map_values(|x: BoardV| x.id)
    }

    pub open spec fn has_item(self, id: i64) -> bool {
        self.item_ids().contains(id)
    }

    pub open spec fn has_board(self, id: i64) -> bool {
        self.board_ids().contains(id)
    }

    /// Whether the item is on some board.
    pub open spec fn on_board(self, item_id: i64) -> bool {
        exists|k: int| 0 <= k < self.members.len() && #[trigger] self.members[k].item_id == item_id
    }

    /// Whether the item is on the given board.
    pub open spec fn is_member(self, board_id: i64, item_id: i64) -> bool {
        exists|k: int|
            0 <= k < self.members.len() && #[trigger] self.members[k].item_id == item_id
                && self.members[k].board_id == board_id
    }

    /// The invariant of the database.
    pub open spec fn wf(self) -> bool {
        &&& ids_ok(self.item_ids(), self.item_seq)
        &&& ids_ok(self.rule_ids(), self.rule_seq)
        &&& ids_ok(self.board_ids(), self.board_seq)
        &&& links_ok(self.members, self.item_ids(), self.board_ids())
    }

    /// The configuration value of a key.
    pub open spec fn config_value(self, key: Seq<char>) -> Option<Seq<char>> {
        cfg_get(self.config, key)
    }

    /// The position of the built-in favorites board: the built-in board with
    /// the smallest id.
    pub open spec fn fav_pos(self) -> int {
        first_index(self.boards, |b: BoardV| b.is_builtin)
    }

    /// The id of the built-in favorites board, if there is one.
    pub open spec fn fav_id(self) -> Option<i64> {
        if self.fav_pos() < self.boards.len() {
            Some(self.boards[self.fav_pos()].id)
        } else {
            None
        }
    }

    /// The position of the item with this id (the length when absent).
    pub open spec fn item_pos(self, id: i64) -> int {
        first_index(self.items, id_is(id))
    }

    pub open spec fn with_items(self, items: Seq<ItemV>) -> DbV {
        DbV { items: items, ..self }
    }

    pub open spec fn with_members(self, members: Seq<Membership>) -> DbV {
        DbV { members: members, ..self }
    }
}

impl Database {
    pub open spec fn wf(&self) -> bool {
        self@.wf()
    }

    /// The value of a database with no rows.
    pub open spec fn empty_view() -> DbV {
        DbV {
            items: Seq::empty(),
            rules: Seq::empty(),
            boards: Seq::empty(),
            members: Seq::empty(),
            config: Seq::empty(),
            item_seq: 0,
            rule_seq: 0,
            board_seq: 0,
        }
    }

    /// An empty database: no rows in any table.
    pub fn empty() -> (r: Database)
        ensures
            r.wf(),
            r@ == Database::empty_view(),
    {
        let d = Database {
            items: Vec::new(),
            rules: Vec::new(),
            boards: Vec::new(),
            members: Vec::new(),
            config: Vec::new(),
            item_seq: 0,
            rule_seq: 0,
            board_seq: 0,
        };
        proof {
            assert(d@.items =~= Seq::<ItemV>::empty());
            assert(d@.rules =~= Seq::<RuleV>::empty());
            assert(d@.boards =~= Seq::<BoardV>::empty());
            assert(d@.members =~= Seq::<Membership>::empty());
            assert(d@.config =~= Seq::<(Seq<char>, Seq<char>)>::empty());
        }
        d
    }

    /// The tables of a database fit in memory: their lengths are machine
    /// sizes.
    pub proof fn lemma_table_sizes(&self)
        ensures
            self@.items.len() <= usize::MAX,
            self@.rules.len() <= usize::MAX,
            self@.boards.len() <= usize::MAX,
            self@.members.len() <= usize::MAX,
    {
        vstd::std_specs::vec::axiom_spec_len(&self.items);
        vstd::std_specs::vec::axiom_spec_len(&self.rules);
        vstd::std_specs::vec::axiom_spec_len(&self.boards);
        vstd::std_specs::vec::axiom_spec_len(&self.members);
    }

    /// Reads a configuration value.
    pub fn get_config(&self, key: &str) -> (r: Result<Option<String>, String>)
        ensures
            r matches Ok(v) && crate::model::ov(v) == self@.config_value(key@),
    {
        let ghost c = self@.config;
        let mut i: usize = 0;
        proof {
            assert(c.skip(0) =~= c);
        }
        while i < self.config.len()
            invariant
                0 <= i <= self.config@.len(),
                c == self@.config,
                c.len() == self.config@.len(),
                cfg_get(c, key@) == cfg_get(c.skip(i as int), key@),
            decreases self.config.len() - i,
        {
            let e = &self.config[i];
            proof {
                assert(c.skip(i as int)[0] == (e.key@, e.value@));
                assert(c.skip(i as int).drop_first() =~= c.skip(i + 1));
            }
            if crate::text::same_text(e.key.as_str(), key) {
                return Ok(Some(e.value.clone()));
            }
            i = i + 1;
        }
        proof {
            assert(c.skip(i as int).len() == 0);
        }
        Ok(None)
    }
}


proof fn lemma_cfg_put_at(c: Seq<(Seq<char>, Seq<char>)>, key: Seq<char>, value: Seq<char>, i: int)
    requires
        0 <= i <= c.len(),
        forall|j: int| 0 <= j < i ==> (#[trigger] c[j]).0 != key,
        i < c.len() ==> c[i].0 == key,
    ensures
        cfg_put(c, key, value) == if i < c.len() {
            c.update(i, (key, value))
        } else {
            c.push((key, value))
        },
    decreases i,
{
    if i == 0 {
        if c.len() == 0 {
            assert(seq![(key, value)] =~= c.push((key, value)));
        } else {
            assert(seq![(key, value)] + c.drop_first() =~= c.update(0, (key, value)));
        }
    } else {
        let t = c.drop_first();
        assert forall|j: int| 0 <= j < i - 1 implies (#[trigger] t[j]).0 != key by {
            assert(t[j] == c[j + 1]);
        }
        if i < c.len() {
            assert(t[i - 1] == c[i]);
        }
        lemma_cfg_put_at(t, key, value, i - 1);
        if i < c.len() {
            assert(seq![c[0]] + t.update(i - 1, (key, value)) =~= c.update(i, (key, value)));
        } else {
            assert(seq![c[0]] + t.push((key, value)) =~= c.push((key, value)));
        }
    }
}

impl Database {
    /// Writes a configuration value (`INSERT OR REPLACE`).
    pub fn set_config(&mut self, key: &str, value: &str) -> (r: Result<(), String>)
        requires
            old(self).wf(),
        ensures
            final(self).wf(),
            r is Ok,
            final(self)@ == (DbV { config: cfg_put(old(self)@.config, key@, value@), ..old(self)@ }),
    {
        let ghost c = self@.config;
        let mut i: usize = 0;
        let mut found = false;
        while i < self.config.len() && !found
            invariant
                0 <= i <= self.config@.len(),
                c == self@.config,
                c.len() == self.config@.len(),
                forall|j: int| 0 <= j < i ==> (#[trigger] c[j]).0 != key@,
                found ==> i < c.len() && c[i as int].0 == key@,
            decreases self.config.len() - i, if found { 0int } else { 1int },
        {
            if crate::text::same_text(self.config[i].key.as_str(), key) {
                found = true;
            } else {
                i = i + 1;
            }
        }
        proof {
            lemma_cfg_put_at(c, key@, value@, i as int);
        }
        let entry = ConfigEntry { key: key.to_owned(), value: value.to_owned() };
        if i < self.config.len() {
            self.config.set(i, entry);
        } else {
            self.config.push(entry);
        }
        proof {
            assert(self@.config =~= cfg_put(c, key@, value@));
            assert(self@ == (DbV { config: cfg_put(c, key@, value@), ..old(self)@ }));
        }
        Ok(())
    }
}

/// The elements at the positions below `n` that `keep` accepts, in order.
pub open spec fn keep_where<A>(s: Seq<A>, n: int, keep: spec_fn(int) -> bool) -> Seq<A>
    decreases n,
{
    if n <= 0 {
        Seq::empty()
    } else {
        let r = keep_where(s, n - 1, keep);
        if keep(n - 1) {
            r.push(s[n - 1])
        } else {
            r
        }
    }
}

pub proof fn lemma_keep_where<A>(s: Seq<A>, n: int, keep: spec_fn(int) -> bool)
    requires
        0 <= n <= s.len(),
    ensures
        forall|j: int| 0 <= j < keep_where(s, n, keep).len() ==> exists|p: int|
            0 <= p < n && keep(p) && #[trigger] keep_where(s, n, keep)[j] == s[p],
        forall|p: int| 0 <= p < n && keep(p) ==> #[trigger] keep_where(s, n, keep).contains(s[p]),
        keep_where(s, n, keep).len() <= n,
    decreases n,
{
    if n > 0 {
        lemma_keep_where(s, n - 1, keep);
        let r = keep_where(s, n - 1, keep);
        let t = keep_where(s, n, keep);
        assert forall|j: int| 0 <= j < t.len() implies exists|p: int|
            0 <= p < n && keep(p) && #[trigger] t[j] == s[p] by {
            if j < r.len() {
                assert(t[j] == r[j]);
                let p = choose|p: int| 0 <= p < n - 1 && keep(p) && #[trigger] r[j] == s[p];
                assert(t[j] == s[p]);
            } else {
                assert(t[j] == s[n - 1]);
            }
        }
        assert forall|p: int| 0 <= p < n && keep(p) implies #[trigger] t.contains(s[p]) by {
            if p < n - 1 {
                assert(r.contains(s[p]));
                let j = choose|j: int| 0 <= j < r.len() && r[j] == s[p];
                assert(t[j] == r[j]);
            } else {
                assert(t[t.len() - 1] == s[p]);
            }
        }
    }
}

/// Keeping some rows of an id-ordered table keeps it id-ordered.
pub proof fn lemma_keep_where_ids(s: Seq<ItemV>, n: int, keep: spec_fn(int) -> bool, seq: i64)
    requires
        0 <= n <= s.len(),
        ids_ok(s.map_values(|x: ItemV| x.id), seq),
    ensures
        ids_ok(keep_where(s, n, keep).map_values(|x: ItemV| x.id), seq),
        forall|j: int| 0 <= j < keep_where(s, n, keep).len() ==> exists|p: int|
            0 <= p < n && #[trigger] keep_where(s, n, keep)[j] == s[p],
    decreases n,
{
    lemma_keep_where(s, n, keep);
    if n > 0 {
        lemma_keep_where_ids(s, n - 1, keep, seq);
        let r = keep_where(s, n - 1, keep);
        let t = keep_where(s, n, keep);
        let ids = s.map_values(|x: ItemV| x.id);
        assert forall|j: int| 0 <= j < t.len() implies exists|p: int|
            0 <= p < n && #[trigger] t[j] == s[p] by {
            let p = choose|p: int| 0 <= p < n && keep(p) && #[trigger] t[j] == s[p];
        }
        let tids = t.map_values(|x: ItemV| x.id);
        assert forall|i: int| 0 <= i < tids.len() implies 0 < #[trigger] tids[i] <= seq by {
            let p = choose|p: int| 0 <= p < n && #[trigger] t[i] == s[p];
            assert(ids[p] == s[p].id);
        }
        assert forall|i: int, j: int| 0 <= i < j < tids.len() implies tids[i] < tids[j] by {
            if keep(n - 1) && j == t.len() - 1 {
                assert(t[j] == s[n - 1]);
                let p = choose|p: int| 0 <= p < n - 1 && #[trigger] r[i] == s[p];
                assert(t[i] == r[i]);
                assert(ids[p] < ids[n - 1]);
            } else {
                assert(t[i] == r[i] && t[j] == r[j]);
                let rids = r.map_values(|x: ItemV| x.id);
                assert(rids[i] < rids[j]);
            }
        }
    }
}

pub proof fn lemma_ids_len(ids: Seq<i64>, seq: i64)
    requires
        ids_ok(ids, seq),
    ensures
        ids.len() <= seq,
        forall|i: int| 0 <= i < ids.len() ==> #[trigger] ids[i] >= i + 1,
{
    assert forall|i: int| 0 <= i < ids.len() implies #[trigger] ids[i] >= i + 1 by {
        lemma_ids_at_least(ids, seq, i);
    }
    if ids.len() > 0 {
        assert(ids[ids.len() - 1] >= ids.len());
    }
}

proof fn lemma_ids_at_least(ids: Seq<i64>, seq: i64, i: int)
    requires
        ids_ok(ids, seq),
        0 <= i < ids.len(),
    ensures
        ids[i] >= i + 1,
    decreases i,
{
    if i > 0 {
        lemma_ids_at_least(ids, seq, i - 1);
    }
}

/// Appending a row with the next id keeps ids ordered.
pub proof fn lemma_ids_push(ids: Seq<i64>, seq: i64)
    requires
        ids_ok(ids, seq),
        seq < i64::MAX,
    ensures
        ids_ok(ids.push((seq + 1) as i64), (seq + 1) as i64),
{
}

/// Removing a row keeps ids ordered.
pub proof fn lemma_ids_remove(ids: Seq<i64>, seq: i64, p: int)
    requires
        ids_ok(ids, seq),
        0 <= p < ids.len(),
    ensures
        ids_ok(ids.remove(p), seq),
        forall|x: i64| #[trigger] ids.remove(p).contains(x) <==> ids.contains(x) && x != ids[p],
{
    let r = ids.remove(p);
    assert forall|x: i64| #[trigger] r.contains(x) <==> ids.contains(x) && x != ids[p] by {
        if r.contains(x) {
            let j = choose|j: int| 0 <= j < r.len() && r[j] == x;
            if j < p {
                assert(ids[j] == x);
            } else {
                assert(ids[j + 1] == x);
            }
        }
        if ids.contains(x) && x != ids[p] {
            let j = choose|j: int| 0 <= j < ids.len() && ids[j] == x;
            if j < p {
                assert(r[j] == x);
            } else {
                assert(j != p);
                assert(r[j - 1] == x);
            }
        }
    }
}

/// Whether no two memberships name the same (board, item) pair.
pub open spec fn pairs_unique(m: Seq<Membership>) -> bool {
    forall|k: int, l: int|
        0 <= k < l < m.len() ==> !(#[trigger] m[k].board_id == #[trigger] m[l].board_id
            && m[k].item_id == m[l].item_id)
}

/// Dropping memberships keeps pairs unique, and keeps only existing ones.
pub proof fn lemma_filter_members(m: Seq<Membership>, p: spec_fn(Membership) -> bool)
    requires
        pairs_unique(m),
    ensures
        pairs_unique(m.filter(p)),
        forall|x: Membership| #[trigger] m.filter(p).contains(x) ==> m.contains(x) && p(x),
    decreases m.len(),
{
    reveal(Seq::filter);
    let f = m.filter(p);
    if m.len() > 0 {
        let d = m.drop_last();
        assert forall|k: int, l: int| 0 <= k < l < d.len() implies !(#[trigger] d[k].board_id
            == #[trigger] d[l].board_id && d[k].item_id == d[l].item_id) by {
            assert(d[k] == m[k] && d[l] == m[l]);
        }
        lemma_filter_members(d, p);
        let fd = d.filter(p);
        assert forall|x: Membership| #[trigger] f.contains(x) implies m.contains(x) && p(x) by {
            if p(m.last()) {
                let j = choose|j: int| 0 <= j < f.len() && f[j] == x;
                if j < fd.len() {
                    assert(fd[j] == x);
                    assert(fd.contains(x));
                    let i = choose|i: int| 0 <= i < d.len() && d[i] == x;
                    assert(m[i] == x);
                } else {
                    assert(m[m.len() - 1] == x);
                }
            } else {
                let i = choose|i: int| 0 <= i < d.len() && d[i] == x;
                assert(m[i] == x);
            }
        }
        if p(m.last()) {
            assert forall|k: int, l: int| 0 <= k < l < f.len() implies !(#[trigger] f[k].board_id
                == #[trigger] f[l].board_id && f[k].item_id == f[l].item_id) by {
                if l == f.len() - 1 {
                    assert(f[k] == fd[k]);
                    assert(fd.contains(fd[k]));
                    let i = choose|i: int| 0 <= i < d.len() && d[i] == fd[k];
                    assert(m[i] == f[k]);
                    assert(f[l] == m[m.len() - 1]);
                } else {
                    assert(f[k] == fd[k] && f[l] == fd[l]);
                }
            }
        }
    }
}
} // verus!
