//! Expiry: deleting items that are older than their retention period.

use vstd::prelude::*;
use crate::model::{ClipboardItem, ItemV};
use crate::text::{parse_i64, parse_i64_spec};
use super::{Database, DbV, keep_where, lemma_keep_where, lemma_keep_where_ids};

verus! {

/// A configuration value read as an integer, `default` when it is missing
/// or not a number.
pub open spec fn config_int(db: DbV, key: Seq<char>, default: i64) -> i64 {
    match db.config_value(key) {
        Some(v) => match parse_i64_spec(v) {
            Some(n) => n,
            None => default,
        },
        None => default,
    }
}

/// Whether a time lies more than `days` days before `now`.
pub open spec fn older_than(t: i64, now: i64, days: i64) -> bool {
    (t as int) < (now as int) - (days as int) * 86400
}

/// The retention setting of a content type (`expire_days_<type>`); -1 when
/// it is not set.
pub open spec fn type_days(db: DbV, content_type: Seq<char>) -> i64 {
    config_int(db, "expire_days_"@ + content_type, -1i64)
}

/// Whether a tagged item has outlived a tag rule with its name.
pub open spec fn rule_expired(db: DbV, x: ItemV, now: i64) -> bool {
    exists|k: int|
        0 <= k < db.rules.len() && (#[trigger] db.rules[k]).expire_days > 0 && x.tag == Some(
            db.rules[k].name,
        ) && older_than(x.updated_at, now, db.rules[k].expire_days)
}

/// Whether an untagged item has outlived the retention of its content type
/// (only `image` and `text` have such a setting; 0 keeps forever).
pub open spec fn type_expired(db: DbV, x: ItemV, now: i64) -> bool {
    &&& x.tag is None
    &&& (x.content_type == "image"@ || x.content_type == "text"@)
    &&& type_days(db, x.content_type) > 0
    &&& older_than(x.updated_at, now, type_days(db, x.content_type))
}

/// Whether an untagged item whose content type has no retention setting of
/// its own has outlived the default retention (`default_expire_days`; 0 or
/// missing keeps forever).
pub open spec fn default_expired(db: DbV, x: ItemV, now: i64) -> bool {
    let d = config_int(db, "default_expire_days"@, 0);
    &&& x.tag is None
    &&& d > 0
    &&& !(x.content_type == "image"@ && type_days(db, "image"@) >= 0)
    &&& !(x.content_type == "text"@ && type_days(db, "text"@) >= 0)
    &&& older_than(x.updated_at, now, d)
}

/// Whether an item is deleted by expiry at time `now`: pinned items and
/// items on a board never expire.
pub open spec fn expired(db: DbV, x: ItemV, now: i64) -> bool {
    !x.is_pinned && !db.on_board(x.id) && (rule_expired(db, x, now) || type_expired(db, x, now) || default_expired(
        db,
        x,
        now,
    ))
}

impl DbV {
    /// The database after expiry at time `now`.
    pub open spec fn expire(self, now: i64) -> DbV {
        self.with_items(self.items.filter(|x: ItemV| !expired(self, x, now)))
    }
}

proof fn lemma_filter_keep_where(s: Seq<ItemV>, p: spec_fn(ItemV) -> bool, n: int)
    requires
        0 <= n <= s.len(),
    ensures
        s.take(n).filter(p) == keep_where(s, n, |pos: int| p(s[pos])),
    decreases n,
{
    reveal(Seq::filter);
    if n > 0 {
        lemma_filter_keep_where(s, p, n - 1);
        assert(s.take(n).drop_last() =~= s.take(n - 1));
    } else {
        assert(s.take(0) =~= Seq::<ItemV>::empty());
    }
}

impl Database {
    fn config_int_exec(&self, key: &str, default: i64) -> (r: i64)
        ensures
            r == config_int(self@, key@, default),
    {
        match self.get_config(key) {
            Ok(Some(v)) => match parse_i64(v.as_str()) {
                Some(n) => n,
                None => default,
            },
            _ => default,
        }
    }

    fn rule_expired_exec(&self, x: &ClipboardItem, now: i64) -> (r: bool)
        ensures
            r == rule_expired(self@, x@, now),
    {
        let mut k: usize = 0;
        while k < self.rules.len()
            invariant
                0 <= k <= self.rules@.len(),
                self@.rules.len() == self.rules@.len(),
                forall|j: int|
                    0 <= j < k ==> !((#[trigger] self@.rules[j]).expire_days > 0 && x@.tag == Some(
                        self@.rules[j].name,
                    ) && older_than(x@.updated_at, now, self@.rules[j].expire_days)),
            decreases self.rules.len() - k,
        {
            let r = &self.rules[k];
            proof {
                assert(self@.rules[k as int] == r@);
            }
            if r.expire_days > 0 {
                let tag_matches = match &x.tag {
                    Some(t) => *t == r.name,
                    None => false,
                };
                if tag_matches && (x.updated_at as i128) < (now as i128) - (r.expire_days as i128) * 86400 {
                    return true;
                }
            }
            k = k + 1;
        }
        false
    }

    /// Deletes the items that have expired at time `now`; returns how many.
    pub fn cleanup_expired_items_at(&mut self, now: i64) -> (r: Result<u64, String>)
        requires
            old(self).wf(),
        ensures
            final(self).wf(),
            final(self)@ == old(self)@.expire(now),
            r matches Ok(n) && n == old(self)@.items.len() - final(self)@.items.len(),
    {
        let ghost db = self@;
        let image_days = self.config_int_exec("expire_days_image", -1);
        let text_days = self.config_int_exec("expire_days_text", -1);
        let default_days = self.config_int_exec("default_expire_days", 0);
        proof {
            reveal_strlit("image");
            reveal_strlit("text");
            reveal_strlit("expire_days_");
            reveal_strlit("expire_days_image");
            reveal_strlit("expire_days_text");
            assert("expire_days_"@ + "image"@ =~= "expire_days_image"@);
            assert("expire_days_"@ + "text"@ =~= "expire_days_text"@);
        }
        let ghost keep = |pos: int| !expired(db, db.items[pos], now);
        let n = self.items.len();
        let mut kept: Vec<ClipboardItem> = Vec::new();
        let mut i: usize = 0;
        while i < n
            invariant
                0 <= i <= n == self.items@.len(),
                self@ == db,
                db.items.len() == n,
                image_days == type_days(db, "image"@),
                text_days == type_days(db, "text"@),
                default_days == config_int(db, "default_expire_days"@, 0),
                keep == (|pos: int| !expired(db, db.items[pos], now)),
                kept@.map_values(|x: ClipboardItem| x@) == keep_where(db.items, i as int, keep),
            decreases n - i,
        {
            let x = &self.items[i];
            proof {
                assert(db.items[i as int] == x@);
                reveal_strlit("image");
                reveal_strlit("text");
            }
            let on_board = self.item_on_board(x.id);
            let is_image = crate::text::same_text(x.content_type.as_str(), "image");
            let is_text = crate::text::same_text(x.content_type.as_str(), "text");
            let untagged = x.tag.is_none();
            let t = x.updated_at as i128;
            let nw = now as i128;
            let by_rule = untagged == false && self.rule_expired_exec(x, now);
            let by_type = untagged && ((is_image && image_days > 0 && t < nw - (image_days as i128)
                * 86400) || (is_text && text_days > 0 && t < nw - (text_days as i128) * 86400));
            let by_default = untagged && default_days > 0 && !(is_image && image_days >= 0) && !(
            is_text && text_days >= 0) && t < nw - (default_days as i128) * 86400;
            let gone = !x.is_pinned && !on_board && (by_rule || by_type || by_default);
            proof {
                if untagged {
                    assert(!rule_expired(db, x@, now));
                }
                if is_image {
                    assert(x@.content_type == "image"@);
                }
                if is_text {
                    assert(x@.content_type == "text"@);
                }
                assert(gone == expired(db, x@, now));
            }
            if !gone {
                kept.push(x.duplicate());
            }
            proof {
                assert(kept@.map_values(|x: ClipboardItem| x@) =~= keep_where(db.items, i + 1, keep));
            }
            i = i + 1;
        }
        self.items = kept;
        proof {
            let pf = |x: ItemV| !expired(db, x, now);
            lemma_filter_keep_where(db.items, pf, n as int);
            assert(db.items.take(n as int) =~= db.items);
            assert(keep =~= (|pos: int| pf(db.items[pos])));
            let nv = self@;
            assert(nv == db.expire(now));
            lemma_keep_where_ids(db.items, n as int, keep, db.item_seq);
            lemma_keep_where(db.items, n as int, keep);
            assert(nv.item_ids() =~= keep_where(db.items, n as int, keep).map_values(|x: ItemV| x.id));
            assert forall|q: int| 0 <= q < nv.members.len() implies nv.board_ids().contains(
                #[trigger] nv.members[q].board_id,
            ) && nv.item_ids().contains(nv.members[q].item_id) by {
                let iid = nv.members[q].item_id;
                assert(nv.members[q] == db.members[q]);
                assert(db.board_ids().contains(db.members[q].board_id));
                assert(db.item_ids().contains(iid));
                let pos = choose|pos: int| 0 <= pos < db.item_ids().len() && db.item_ids()[pos] == iid;
                assert(db.items[pos].id == iid);
                assert(db.on_board(iid));
                assert(keep(pos));
                let kw = keep_where(db.items, n as int, keep);
                assert(kw.contains(db.items[pos]));
                let w = choose|w: int| 0 <= w < kw.len() && kw[w] == db.items[pos];
                assert(nv.item_ids()[w] == iid);
            }
        }
        Ok((n - self.items.len()) as u64)
    }

    /// Deletes the items that have expired now; returns how many.
    pub fn cleanup_expired_items(&mut self) -> (r: Result<u64, String>)
        requires
            old(self).wf(),
        ensures
            final(self).wf(),
            (r matches Err(e0) && e0@ == crate::db::clock_msg() && final(self)@ == old(self)@) || ((
            r matches Ok(n) && n == old(self)@.items.len() - final(self)@.items.len()) && exists|now: i64|
                now >= 0 && final(self)@ == #[trigger] old(self)@.expire(now)),
    {
        let now = match crate::db::clock_now() {
            Ok(n) => n,
            Err(e) => {
                return Err(e);
            },
        };
        self.cleanup_expired_items_at(now)
    }
}

} // verus!
