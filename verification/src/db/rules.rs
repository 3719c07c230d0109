//! Tag rules: listing, adding, removing them, and choosing the tag that a
//! new text gets.

use vstd::prelude::*;
use crate::detect::{builtin_detect, builtin_detect_spec};
use crate::keysort::{SortKey, key_order, lemma_key_order_total, sort_keys, sorted_keys};
use crate::model::{RuleV, TagRule, ov};
use crate::outside::{regex_error, regex_search, spec_regex_error, spec_regex_search};
use crate::text::{chars_of, starts_with_chars, starts_with_seq, trim_seq, trim_str};
use super::{Database, DbV, first_index, ids_ok, lemma_first_index, lemma_ids_push, lemma_ids_remove};

verus! {

/// Rules by priority, highest first; rules of equal priority by id.
pub open spec fn rule_key(r: RuleV, pos: int) -> SortKey {
    ((-(r.priority as int)) as i128, 0, 0, pos as usize)
}

/// The keys of the first `n` rules, in row order.
pub open spec fn rule_keys_upto(rules: Seq<RuleV>, n: int) -> Seq<SortKey>
    decreases n,
{
    if n <= 0 {
        Seq::empty()
    } else {
        rule_keys_upto(rules, n - 1).push(rule_key(rules[n - 1], n - 1))
    }
}

/// The rules in the order in which they are listed and tried.
pub open spec fn rule_order(rules: Seq<RuleV>) -> Seq<SortKey> {
    sorted_keys(rule_keys_upto(rules, rules.len() as int))
}

pub proof fn lemma_rule_keys(rules: Seq<RuleV>, n: int)
    requires
        0 <= n <= rules.len() <= usize::MAX,
    ensures
        rule_keys_upto(rules, n).len() == n,
        forall|k: SortKey| #[trigger] rule_keys_upto(rules, n).contains(k) ==> 0 <= k.3 < n,
    decreases n,
{
    if n > 0 {
        lemma_rule_keys(rules, n - 1);
        let r = rule_keys_upto(rules, n - 1);
        let t = rule_keys_upto(rules, n);
        assert forall|k: SortKey| #[trigger] t.contains(k) implies 0 <= k.3 < n by {
            let j = choose|j: int| 0 <= j < t.len() && t[j] == k;
            if j < r.len() {
                assert(r[j] == t[j]);
                assert(r.contains(k));
            }
        }
    }
}

/// The regular expression that a pattern must match in full.
pub open spec fn anchored(p: Seq<char>) -> Seq<char> {
    "^(?:"@ + p + ")$"@
}

/// Whether a rule tags this (trimmed) text. An empty pattern marks a manual
/// tag and tags nothing; a `builtin:` pattern runs the named detector; any
/// other pattern must match the whole text; a pattern that does not compile
/// tags nothing.
pub open spec fn rule_fires(r: RuleV, text: Seq<char>) -> bool {
    if r.pattern.len() == 0 {
        false
    } else if starts_with_seq(r.pattern, "builtin:"@) {
        builtin_detect_spec(r.pattern.skip(8), text)
    } else {
        spec_regex_search(anchored(r.pattern), text) == Some(true)
    }
}

/// The tag that a new text gets: the name of the first rule, in listing
/// order, that fires on the trimmed text.
pub open spec fn match_tag_spec(rules: Seq<RuleV>, content: Seq<char>) -> Option<Seq<char>> {
    let order = rule_order(rules);
    let text = trim_seq(content);
    let i = first_index(order, |k: SortKey| rule_fires(rules[k.3 as int], text));
    if i < order.len() {
        Some(rules[order[i].3 as int].name)
    } else {
        None
    }
}

/// The rule that a rule insert adds.
pub open spec fn new_rule(
    id: i64,
    name: Seq<char>,
    pattern: Seq<char>,
    color: Seq<char>,
    priority: i64,
    expire_days: i64,
) -> RuleV {
    RuleV { id, name, pattern, color, priority, expire_days }
}

/// The message of every insert refused because row ids have run out.
pub open spec fn full_msg() -> Seq<char> {
    "database or disk is full"@
}

impl DbV {
    pub open spec fn rule_pos(self, id: i64) -> int {
        first_index(self.rules, |r: RuleV| r.id == id)
    }

    /// The database after `delete_tag_rule(id)`.
    pub open spec fn drop_rule(self, id: i64) -> DbV {
        let p = self.rule_pos(id);
        if p < self.rules.len() {
            DbV { rules: self.rules.remove(p), ..self }
        } else {
            self
        }
    }

    /// The database after `update_tag_rule_expire(id, days)`.
    pub open spec fn set_rule_expire(self, id: i64, days: i64) -> DbV {
        let p = self.rule_pos(id);
        if p < self.rules.len() {
            DbV { rules: self.rules.update(p, RuleV { expire_days: days, ..self.rules[p] }), ..self }
        } else {
            self
        }
    }
}

impl Database {
    fn rule_keys(&self) -> (r: Vec<SortKey>)
        ensures
            r@ == rule_keys_upto(self@.rules, self@.rules.len() as int),
    {
        let mut out: Vec<SortKey> = Vec::new();
        let mut i: usize = 0;
        while i < self.rules.len()
            invariant
                0 <= i <= self.rules@.len(),
                self@.rules.len() == self.rules@.len(),
                out@ == rule_keys_upto(self@.rules, i as int),
            decreases self.rules.len() - i,
        {
            proof {
                assert(self@.rules[i as int] == self.rules@[i as int]@);
            }
            out.push((-(self.rules[i].priority as i128), 0, 0, i));
            i = i + 1;
        }
        out
    }

    /// The rules in listing order, with their positions in the table.
    fn ordered_rules(&self) -> (r: Vec<SortKey>)
        ensures
            r@ == rule_order(self@.rules),
            forall|k: SortKey| #[trigger] r@.contains(k) ==> 0 <= k.3 < self@.rules.len(),
    {
        let keys = self.rule_keys();
        let n = self.rules.len();
        proof {
            lemma_rule_keys(self@.rules, n as int);
        }
        sort_keys(&keys)
    }

    /// All tag rules, highest priority first.
    pub fn get_tag_rules(&self) -> (r: Result<Vec<TagRule>, String>)
        ensures
            r matches Ok(v) && v@.map_values(|t: TagRule| t@) == rule_order(self@.rules).map_values(
                |k: SortKey| self@.rules[k.3 as int],
            ),
    {
        let order = self.ordered_rules();
        let mut out: Vec<TagRule> = Vec::new();
        let mut j: usize = 0;
        while j < order.len()
            invariant
                0 <= j <= order@.len(),
                order@ == rule_order(self@.rules),
                forall|k: SortKey| #[trigger] order@.contains(k) ==> 0 <= k.3 < self@.rules.len(),
                self@.rules.len() == self.rules@.len(),
                out@.map_values(|t: TagRule| t@) == order@.take(j as int).map_values(
                    |k: SortKey| self@.rules[k.3 as int],
                ),
            decreases order.len() - j,
        {
            let k = order[j];
            proof {
                assert(order@.contains(k));
            }
            let t = self.rules[k.3].duplicate();
            let ghost before = out@;
            out.push(t);
            proof {
                assert(self@.rules[k.3 as int] == t@);
                assert(order@.take(j + 1) =~= order@.take(j as int).push(k));
                assert(out@.map_values(|t: TagRule| t@) =~= before.map_values(|t: TagRule| t@).push(t@));
                assert(out@.map_values(|t: TagRule| t@) =~= order@.take(j + 1).map_values(
                    |k: SortKey| self@.rules[k.3 as int],
                ));
            }
            j = j + 1;
        }
        proof {
            assert(order@.take(order@.len() as int) =~= order@);
        }
        Ok(out)
    }

    /// Whether the rule tags the (trimmed) text.
    fn rule_fires_exec(r: &TagRule, text: &str) -> (b: bool)
        ensures
            b == rule_fires(r@, text@),
    {
        let pc = chars_of(r.pattern.as_str());
        if pc.len() == 0 {
            return false;
        }
        let prefix = chars_of("builtin:");
        proof {
            reveal_strlit("builtin:");
        }
        if starts_with_chars(&pc, &prefix) {
            let kind = r.pattern.as_str().substring_char(8, pc.len());
            proof {
                assert(kind@ =~= r.pattern@.skip(8));
            }
            return builtin_detect(kind, text);
        }
        let mut a = "^(?:".to_owned();
        a.append(r.pattern.as_str());
        a.append(")$");
        regex_search(a.as_str(), text) == Some(true)
    }

    /// The tag that a new text gets from the tag rules.
    pub(crate) fn match_tag(&self, content: &str) -> (r: Option<String>)
        ensures
            ov(r) == match_tag_spec(self@.rules, content@),
    {
        let order = self.ordered_rules();
        let text = trim_str(content);
        let ghost p = |k: SortKey| rule_fires(self@.rules[k.3 as int], trim_seq(content@));
        let mut i: usize = 0;
        while i < order.len()
            invariant
                0 <= i <= order@.len(),
                order@ == rule_order(self@.rules),
                forall|k: SortKey| #[trigger] order@.contains(k) ==> 0 <= k.3 < self@.rules.len(),
                self@.rules.len() == self.rules@.len(),
                text@ == trim_seq(content@),
                p == (|k: SortKey| rule_fires(self@.rules[k.3 as int], trim_seq(content@))),
                forall|j: int| 0 <= j < i ==> !p(#[trigger] order@[j]),
            decreases order.len() - i,
        {
            let k = order[i];
            proof {
                assert(order@.contains(k));
                assert(self@.rules[k.3 as int] == self.rules@[k.3 as int]@);
            }
            let r = &self.rules[k.3];
            if Self::rule_fires_exec(r, text.as_str()) {
                proof {
                    lemma_first_index(order@, p, i as int);
                }
                return Some(r.name.clone());
            }
            i = i + 1;
        }
        proof {
            lemma_first_index(order@, p, i as int);
        }
        None
    }

    /// Adds a tag rule. A non-empty pattern must compile as a regular
    /// expression.
    pub fn add_tag_rule(
        &mut self,
        name: &str,
        pattern: &str,
        color: &str,
        priority: i64,
        expire_days: i64,
    ) -> (r: Result<TagRule, String>)
        requires
            old(self).wf(),
        ensures
            final(self).wf(),
            match r {
                Ok(t) => {
                    &&& (pattern@.len() == 0 || spec_regex_error(pattern@) is None)
                    &&& old(self)@.rule_seq < i64::MAX
                    &&& t@ == new_rule(
                        (old(self)@.rule_seq + 1) as i64,
                        name@,
                        pattern@,
                        color@,
                        priority,
                        expire_days,
                    )
                    &&& final(self)@ == (DbV {
                        rules: old(self)@.rules.push(t@),
                        rule_seq: t.id,
                        ..old(self)@
                    })
                },
                Err(e) => {
                    &&& final(self)@ == old(self)@
                    &&& if pattern@.len() > 0 && spec_regex_error(pattern@) is Some {
                        e@ == "Invalid regex: "@ + spec_regex_error(pattern@)->0
                    } else {
                        old(self)@.rule_seq == i64::MAX && e@ == full_msg()
                    }
                },
            },
    {
        if !pattern.is_empty() {
            if let Some(msg) = regex_error(pattern) {
                let mut e = "Invalid regex: ".to_owned();
                e.append(msg.as_str());
                return Err(e);
            }
        }
        if self.rule_seq == i64::MAX {
            return Err("database or disk is full".to_owned());
        }
        let id = self.rule_seq + 1;
        let t = TagRule {
            id,
            name: name.to_owned(),
            pattern: pattern.to_owned(),
            color: color.to_owned(),
            priority,
            expire_days,
        };
        let ghost old_ids = self@.rule_ids();
        self.rules.push(t.duplicate());
        self.rule_seq = id;
        proof {
            assert(self@.rules =~= old(self)@.rules.push(t@));
            assert(self@.rule_ids() =~= old_ids.push(id));
            lemma_ids_push(old_ids, old(self)@.rule_seq);
        }
        Ok(t)
    }

    fn find_rule(&self, id: i64) -> (r: usize)
        ensures
            r == self@.rule_pos(id),
            r <= self@.rules.len(),
            r < self@.rules.len() ==> self@.rules[r as int].id == id,
    {
        let ghost p = |r: RuleV| r.id == id;
        let mut i: usize = 0;
        while i < self.rules.len()
            invariant
                0 <= i <= self.rules@.len(),
                self@.rules.len() == self.rules@.len(),
                p == (|r: RuleV| r.id == id),
                forall|j: int| 0 <= j < i ==> !p(#[trigger] self@.rules[j]),
            decreases self.rules.len() - i,
        {
            proof {
                assert(self@.rules[i as int] == self.rules@[i as int]@);
            }
            if self.rules[i].id == id {
                proof {
                    lemma_first_index(self@.rules, p, i as int);
                }
                return i;
            }
            i = i + 1;
        }
        proof {
            lemma_first_index(self@.rules, p, i as int);
        }
        i
    }

    /// Deletes a tag rule.
    pub fn delete_tag_rule(&mut self, id: i64) -> (r: Result<(), String>)
        requires
            old(self).wf(),
        ensures
            final(self).wf(),
            r is Ok,
            final(self)@ == old(self)@.drop_rule(id),
    {
        let p = self.find_rule(id);
        if p < self.rules.len() {
            let ghost old_ids = self@.rule_ids();
            self.rules.remove(p);
            proof {
                assert(self@.rules =~= old(self)@.rules.remove(p as int));
                assert(self@.rule_ids() =~= old_ids.remove(p as int));
                lemma_ids_remove(old_ids, self@.rule_seq, p as int);
            }
        }
        Ok(())
    }

    /// Sets how many days items with this rule's tag are kept.
    pub fn update_tag_rule_expire(&mut self, id: i64, expire_days: i64) -> (r: Result<(), String>)
        requires
            old(self).wf(),
        ensures
            final(self).wf(),
            r is Ok,
            final(self)@ == old(self)@.set_rule_expire(id, expire_days),
    {
        let p = self.find_rule(id);
        if p < self.rules.len() {
            let mut t = self.rules[p].duplicate();
            proof {
                assert(self@.rules[p as int] == t@);
            }
            t.expire_days = expire_days;
            self.rules.set(p, t);
            proof {
                assert(self@.rules =~= old(self)@.rules.update(
                    p as int,
                    RuleV { expire_days: expire_days, ..old(self)@.rules[p as int] },
                ));
                assert(self@.rule_ids() =~= old(self)@.rule_ids());
            }
        }
        Ok(())
    }
}

} // verus!
