//! Checking the stores, ownership links and direct topology of a context.
//!
//! Every check below holds of a well-formed context, so a context built and
//! changed only through this library always validates.

use super::{declaration_at, rule_at, AstContext};
use crate::fx_map::{fx_set_contains, fx_set_contents, fx_set_insert, fx_set_new};
use crate::ids::{DeclarationBlockId, DeclarationId, RuleId, RuleListId};
use crate::records::{DeclarationBlockOwner, ValidationError};
use rustc_hash::FxHashSet;
use vstd::prelude::*;

verus! {

/// How many slots of `owners` hold no block yet.
pub open spec fn none_count(owners: Seq<Option<DeclarationBlockId>>) -> nat
    decreases owners.len(),
{
    if owners.len() == 0 {
        0
    } else {
        none_count(owners.drop_last()) + if owners.last() is None { 1nat } else { 0nat }
    }
}

/// `n` slots, none holding a block.
pub open spec fn unowned(n: nat) -> Seq<Option<DeclarationBlockId>> {
    Seq::new(n, |i: int| None)
}

/// How many slots of `owners` hold a block.
pub open spec fn some_count(owners: Seq<Option<DeclarationBlockId>>) -> nat
    decreases owners.len(),
{
    if owners.len() == 0 {
        0
    } else {
        some_count(owners.drop_last()) + if owners.last() is Some { 1nat } else { 0nat }
    }
}

/// No more slots hold a block than there are slots.
pub proof fn lemma_some_count_le(owners: Seq<Option<DeclarationBlockId>>)
    ensures
        some_count(owners) <= owners.len(),
    decreases owners.len(),
{
    if owners.len() > 0 {
        lemma_some_count_le(owners.drop_last());
    }
}

/// Filling an empty slot lowers the count of empty slots by one.
pub proof fn lemma_none_count_fill(owners: Seq<Option<DeclarationBlockId>>, i: int, value: Option<DeclarationBlockId>)
    requires
        0 <= i < owners.len(),
        owners[i] is None,
        value is Some,
    ensures
        none_count(owners.update(i, value)) + 1 == none_count(owners),
    decreases owners.len(),
{
    let updated = owners.update(i, value);
    if i == owners.len() - 1 {
        assert(updated.drop_last() =~= owners.drop_last());
    } else {
        lemma_none_count_fill(owners.drop_last(), i, value);
        assert(updated.drop_last() =~= owners.drop_last().update(i, value));
    }
}

impl<R, D> AstContext<R, D> {
    /// `s` is a chain that the stored source fields describe: it lists as
    /// many rules as are stored, in range, from the stored head to the stored
    /// tail, linked both ways by the source links.
    pub open spec fn is_stored_source_chain(&self, s: Seq<u32>) -> bool {
        let n = self.rule_count();
        &&& s.len() == n
        &&& self.spec_first_rule_in_source() == rule_at(s, 0)
        &&& self.spec_last_rule_in_source() == rule_at(s, n - 1)
        &&& forall|i: int| 0 <= i < n ==> {
            &&& (#[trigger] s[i]) < n
            &&& self.spec_rule(s[i] as int).previous_in_source == rule_at(s, i - 1)
            &&& self.spec_rule(s[i] as int).next_in_source == rule_at(s, i + 1)
        }
        &&& forall|i: int| 0 <= i < n - 1 ==> #[trigger] self.label_rises_at(s, i)
    }

    /// The source-order label rises from position `i` to position `i + 1` of `s`.
    pub open spec fn label_rises_at(&self, s: Seq<u32>, i: int) -> bool {
        self.spec_rule(s[i] as int).source_order_id.0 < self.spec_rule(s[i + 1] as int).source_order_id.0
    }

    /// List `l`'s stored parent is a live rule that owns it, and its stored
    /// endpoints and length agree on emptiness.
    pub open spec fn stored_list_ok(&self, l: int) -> bool {
        let list = self.spec_list(l);
        &&& (list.parent matches Some(p) ==> (p.0 as int) < self.rule_count() && self.spec_rule(p.0 as int).live
            && self.spec_rule(p.0 as int).child_list == Some(RuleListId(l as u32)))
        &&& (list.live_len == 0) == (list.first is None && list.last is None)
        &&& (list.first is None) == (list.last is None)
    }

    /// Position `i` of `s` holds a live rule of list `l`, with the list's
    /// parent, whose stored sibling links point to its neighbours in `s`.
    pub open spec fn list_member_ok(&self, l: int, s: Seq<u32>, i: int) -> bool {
        let rule = self.spec_rule(s[i] as int);
        &&& (s[i] as int) < self.rule_count()
        &&& rule.live
        &&& rule.parent_list == RuleListId(l as u32)
        &&& rule.parent == self.spec_list(l).parent
        &&& rule.previous_sibling == rule_at(s, i - 1)
        &&& rule.next_sibling == rule_at(s, i + 1)
    }

    /// `s` is the sibling chain that list `l`'s stored fields describe:
    /// distinct members, from the stored first to the stored last, as many as
    /// the stored length.
    pub open spec fn is_stored_list_chain(&self, l: int, s: Seq<u32>) -> bool {
        let list = self.spec_list(l);
        &&& s.len() == list.live_len
        &&& list.first == rule_at(s, 0)
        &&& list.last == rule_at(s, s.len() - 1)
        &&& forall|i: int| 0 <= i < s.len() ==> #[trigger] self.list_member_ok(l, s, i)
        &&& forall|i: int, j: int| 0 <= i < j < s.len() ==> #[trigger] s[i] != #[trigger] s[j]
    }

    /// List `l`'s stored fields describe a sibling chain.
    pub open spec fn has_stored_list_chain(&self, l: int) -> bool {
        exists|s: Seq<u32>| self.is_stored_list_chain(l, s)
    }

    /// Rule `x` is a member of the sibling chain of list `l`.
    pub open spec fn in_stored_list_chain(&self, l: int, x: u32) -> bool {
        exists|s: Seq<u32>| self.is_stored_list_chain(l, s) && s.contains(x)
    }

    /// Rule `x` is a member of the stored sibling chain of a list that its
    /// stored parent list names.
    pub open spec fn in_named_list_chain(&self, x: u32) -> bool {
        exists|l: int| 0 <= l < self.list_count() && RuleListId(l as u32) == self.spec_rule(x as int).parent_list
            && #[trigger] self.in_stored_list_chain(l, x)
    }

    /// Every list has a stored sibling chain, and every live rule is a member
    /// of the chain of the list it names (and of no other: a member names the
    /// list whose chain holds it).
    pub open spec fn stored_lists_ok(&self) -> bool {
        &&& forall|l: int| 0 <= l < self.list_count() ==> #[trigger] self.has_stored_list_chain(l)
        &&& forall|x: u32| (x as int) < self.rule_count() && (#[trigger] self.spec_rule(x as int)).live
            ==> self.in_named_list_chain(x)
    }

    /// Declaration `d` is a member of the stored chain of block `b`.
    pub open spec fn in_stored_block_chain(&self, b: int, d: u32) -> bool {
        exists|c: Seq<u32>| self.is_stored_chain(b, c) && c.contains(d)
    }

    /// Declaration record `d` is a member of the stored chain of some block.
    pub open spec fn declaration_in_some_chain(&self, d: int) -> bool {
        &&& 0 <= d <= u32::MAX
        &&& exists|b: int| 0 <= b < self.block_count() && #[trigger] self.in_stored_block_chain(b, d as u32)
    }

    /// Every declaration record is a member of the stored chain of some
    /// block, and of one block only: none is left without an owner or
    /// shared.
    pub open spec fn stored_declarations_ok(&self) -> bool {
        &&& forall|d: int| 0 <= d < self.declaration_count() ==> #[trigger] self.declaration_in_some_chain(d)
        &&& forall|b1: int, b2: int, d: u32| 0 <= b1 < self.block_count() && 0 <= b2 < self.block_count()
            && #[trigger] self.in_stored_block_chain(b1, d) && #[trigger] self.in_stored_block_chain(b2, d) ==> b1 == b2
    }

    /// A live rule's stored child list names it as parent, and its stored
    /// block names it as owner.
    pub open spec fn stored_rule_ok(&self, x: int) -> bool {
        let rec = self.spec_rule(x);
        rec.live ==> {
            &&& (rec.child_list matches Some(c) ==> (c.0 as int) < self.list_count()
                && self.spec_list(c.0 as int).parent == Some(RuleId(x as u32)))
            &&& (rec.declaration_block matches Some(b) ==> (b.0 as int) < self.block_count()
                && self.spec_block(b.0 as int).owner == DeclarationBlockOwner::Rule(RuleId(x as u32)))
        }
    }

    /// `c` is the chain that block `b`'s stored fields describe: distinct
    /// stored declarations, from the stored first to the stored last, each
    /// linked to the next, the last linked to none, as many as the stored
    /// count.
    pub open spec fn is_stored_chain(&self, b: int, c: Seq<u32>) -> bool {
        let rec = self.spec_block(b);
        &&& c.len() == rec.declaration_count
        &&& rec.first_declaration == declaration_at(c, 0)
        &&& rec.last_declaration == declaration_at(c, c.len() - 1)
        &&& forall|i: int| 0 <= i < c.len() ==> {
            &&& (#[trigger] c[i] as int) < self.declaration_count()
            &&& self.spec_declaration(c[i] as int).next_in_block == declaration_at(c, i + 1)
        }
        &&& forall|i: int, j: int| 0 <= i < j < c.len() ==> #[trigger] c[i] != #[trigger] c[j]
    }

    /// Block `b`'s stored endpoints agree with its count, its stored chain is
    /// well formed, and a live block's owner is a live rule that names it and
    /// its key is stored.
    pub open spec fn stored_block_ok(&self, b: int) -> bool {
        let rec = self.spec_block(b);
        &&& (rec.declaration_count == 0) == (rec.first_declaration is None && rec.last_declaration is None)
        &&& (rec.first_declaration is None) == (rec.last_declaration is None)
        &&& exists|c: Seq<u32>| self.is_stored_chain(b, c)
        &&& (rec.live ==> {
            &&& (rec.owner->Rule_0.0 as int) < self.rule_count()
            &&& self.spec_rule(rec.owner->Rule_0.0 as int).live
            &&& self.spec_rule(rec.owner->Rule_0.0 as int).declaration_block == Some(DeclarationBlockId(b as u32))
            &&& (rec.effective_key.0 as int) < self.key_count()
        })
    }

    /// What a passing validation guarantees of the stored fields: the source
    /// chain, every list's owner, endpoints and sibling chain, every live
    /// rule's place in one list and its child list and block, every block's
    /// chain and owner.
    pub open spec fn stored_fields_ok(&self) -> bool {
        &&& self.stored_source_ok()
        &&& self.stored_lists_ok()
        &&& self.stored_declarations_ok()
        &&& forall|l: int| 0 <= l < self.list_count() ==> #[trigger] self.stored_list_ok(l)
        &&& forall|x: int| 0 <= x < self.rule_count() ==> #[trigger] self.stored_rule_ok(x)
        &&& forall|b: int| 0 <= b < self.block_count() ==> #[trigger] self.stored_block_ok(b)
    }

    /// The root list exists and has no parent, and the stored source fields
    /// describe one chain through every rule with rising labels.
    pub open spec fn stored_source_ok(&self) -> bool {
        &&& (self.spec_stylesheet().root_rules.0 as int) < self.list_count()
        &&& self.spec_list(self.spec_stylesheet().root_rules.0 as int).parent is None
        &&& exists|s: Seq<u32>| self.is_stored_source_chain(s)
    }

    /// The rules met walking the stored source links from `next`, for at
    /// most `remaining` steps, stopping at an identity that names no rule.
    pub open spec fn source_walk(&self, next: Option<RuleId>, remaining: nat) -> Seq<u32>
        decreases remaining,
    {
        if remaining == 0 {
            Seq::empty()
        } else {
            match next {
                Some(id) => if (id.0 as int) < self.rule_count() {
                    seq![id.0] + self.source_walk(self.spec_rule(id.0 as int).next_in_source, (remaining - 1) as nat)
                } else {
                    Seq::empty()
                },
                None => Seq::empty(),
            }
        }
    }

    /// The first broken link or label of the walked source chain `s` from
    /// position `i` on, if any.
    pub open spec fn source_links_from(&self, s: Seq<u32>, i: int) -> Option<ValidationError>
        decreases s.len() - i,
    {
        if i < 0 || i >= s.len() {
            None
        } else {
            let rec = self.spec_rule(s[i] as int);
            let expected_previous = if i > 0 { Some(RuleId(s[i - 1])) } else { None };
            let expected_next = if i + 1 < s.len() { Some(RuleId(s[i + 1])) } else { None };
            if rec.previous_in_source != expected_previous {
                Some(ValidationError::InvalidSourcePrevious {
                    rule: RuleId(s[i]),
                    expected: expected_previous,
                    actual: rec.previous_in_source,
                })
            } else if rec.next_in_source != expected_next {
                Some(ValidationError::InvalidSourceNext {
                    rule: RuleId(s[i]),
                    expected: expected_next,
                    actual: rec.next_in_source,
                })
            } else if i + 1 < s.len() && rec.source_order_id.0 >= self.spec_rule(s[i + 1] as int).source_order_id.0 {
                Some(ValidationError::InvalidSourceOrder { previous: RuleId(s[i]), next: RuleId(s[i + 1]) })
            } else {
                self.source_links_from(s, i + 1)
            }
        }
    }

    /// The first failing check of the global source chain, if any: its walk
    /// must meet every rule between the stored endpoints, then every link
    /// and label along it must agree.
    pub open spec fn source_result(&self) -> Option<ValidationError> {
        let s = self.source_walk(self.spec_first_rule_in_source(), self.rule_count());
        let m = s.len();
        let first = if m > 0 { Some(RuleId(s[0])) } else { None };
        let last = if m > 0 { Some(RuleId(s[m - 1])) } else { None };
        if m != self.rule_count() || self.spec_first_rule_in_source() != first || self.spec_last_rule_in_source() != last {
            Some(ValidationError::InvalidSourceEndpoints)
        } else {
            self.source_links_from(s, 0)
        }
    }

    /// Walks the sibling chain of list `l` from `current`, after `previous`
    /// and `actual_len` members, with `visited` the rules met in lists so far:
    /// the first failing member check, or the rules met once the walk ends.
    pub open spec fn list_walk(&self, l: int, current: Option<RuleId>, previous: Option<RuleId>, actual_len: u32,
        visited: Set<u32>) -> Result<Set<u32>, ValidationError>
        decreases self.spec_list(l).live_len - actual_len,
    {
        let list = self.spec_list(l);
        let list_id = RuleListId(l as u32);
        match current {
            None => if previous != list.last {
                Err(ValidationError::ListDoesNotEndAtLast(list_id))
            } else if actual_len != list.live_len {
                Err(ValidationError::ListLengthMismatch { list: list_id, expected: list.live_len, actual: actual_len })
            } else {
                Ok(visited)
            },
            Some(id) => if (id.0 as int) >= self.rule_count() {
                Err(ValidationError::MissingRule(id))
            } else {
                let rule = self.spec_rule(id.0 as int);
                if !rule.live {
                    Err(ValidationError::RetiredRuleInList { list: list_id, rule: id })
                } else if rule.parent_list != list_id {
                    Err(ValidationError::RuleHasWrongParentList { list: list_id, rule: id })
                } else if rule.parent != list.parent {
                    Err(ValidationError::RuleHasWrongParent { list: list_id, rule: id })
                } else if rule.previous_sibling != previous {
                    Err(ValidationError::RuleHasWrongPrevious { rule: id, expected: previous })
                } else if visited.contains(id.0) {
                    Err(ValidationError::LiveRuleIsNotInOneList(id))
                } else if actual_len == u32::MAX {
                    Err(ValidationError::ListLengthMismatch { list: list_id, expected: list.live_len, actual: u32::MAX })
                } else if actual_len + 1 > list.live_len {
                    Err(ValidationError::ListLengthMismatch { list: list_id, expected: list.live_len, actual: (actual_len + 1) as u32 })
                } else {
                    self.list_walk(l, rule.next_sibling, Some(id), (actual_len + 1) as u32, visited.insert(id.0))
                }
            },
        }
    }

    /// The checks of list `l`: its parent, its endpoints, then its walk.
    pub open spec fn list_check(&self, l: int, visited: Set<u32>) -> Result<Set<u32>, ValidationError> {
        let list = self.spec_list(l);
        let list_id = RuleListId(l as u32);
        let parent_error = match list.parent {
            Some(p) => if (p.0 as int) >= self.rule_count() {
                Some(ValidationError::MissingListParent { list: list_id, parent: p })
            } else if !self.spec_rule(p.0 as int).live {
                Some(ValidationError::RetiredListParent { list: list_id, parent: p })
            } else if self.spec_rule(p.0 as int).child_list != Some(list_id) {
                Some(ValidationError::ParentDoesNotOwnList { list: list_id, parent: p })
            } else {
                None
            },
            None => None,
        };
        match parent_error {
            Some(e) => Err(e),
            None => if (list.live_len == 0) != (list.first is None && list.last is None)
                || (list.first is None) != (list.last is None) {
                Err(ValidationError::InvalidListEndpoints(list_id))
            } else {
                self.list_walk(l, list.first, None, 0, visited)
            },
        }
    }

    /// The checks of the lists from `l` on, in order, threading the rules met.
    pub open spec fn lists_from(&self, l: int, visited: Set<u32>) -> Result<Set<u32>, ValidationError>
        decreases self.list_count() - l,
    {
        if l < 0 || l >= self.list_count() {
            Ok(visited)
        } else {
            match self.list_check(l, visited) {
                Err(e) => Err(e),
                Ok(v) => self.lists_from(l + 1, v),
            }
        }
    }

    /// The checks of rule `x`: a live rule was met in a list, and its child
    /// list and block exist and name it.
    pub open spec fn rule_check(&self, visited: Set<u32>, x: int) -> Option<ValidationError> {
        let rule = self.spec_rule(x);
        let rule_id = RuleId(x as u32);
        if !rule.live {
            None
        } else if !visited.contains(x as u32) {
            Some(ValidationError::LiveRuleIsNotInOneList(rule_id))
        } else {
            let list_error = match rule.child_list {
                Some(c) => if (c.0 as int) >= self.list_count() {
                    Some(ValidationError::MissingOwnedChildList { rule: rule_id, list: c })
                } else if self.spec_list(c.0 as int).parent != Some(rule_id) {
                    Some(ValidationError::ChildListHasWrongParent { rule: rule_id, list: c, actual: self.spec_list(c.0 as int).parent })
                } else {
                    None
                },
                None => None,
            };
            match list_error {
                Some(e) => Some(e),
                None => match rule.declaration_block {
                    Some(b) => if (b.0 as int) >= self.block_count() {
                        Some(ValidationError::MissingOwnedDeclarationBlock { rule: rule_id, block: b })
                    } else if self.spec_block(b.0 as int).owner->Rule_0 != rule_id {
                        Some(ValidationError::DeclarationBlockHasWrongOwner { rule: rule_id, block: b, actual: self.spec_block(b.0 as int).owner->Rule_0 })
                    } else {
                        None
                    },
                    None => None,
                },
            }
        }
    }

    /// The first failing rule check from rule `x` on.
    pub open spec fn rules_from(&self, visited: Set<u32>, x: int) -> Option<ValidationError>
        decreases self.rule_count() - x,
    {
        if x < 0 || x >= self.rule_count() {
            None
        } else {
            match self.rule_check(visited, x) {
                Some(e) => Some(e),
                None => self.rules_from(visited, x + 1),
            }
        }
    }

    /// Walks the chain of block `b` from `current`, after `actual_count`
    /// declarations ending at `actual_last`, with `seen` those of this walk
    /// and `owners` the owning block recorded for each declaration: the first
    /// failing check, or the owners once the walk ends.
    pub open spec fn block_walk(&self, b: int, current: Option<DeclarationId>, actual_last: Option<DeclarationId>,
        actual_count: u32, seen: Set<u32>, owners: Seq<Option<DeclarationBlockId>>)
        -> Result<Seq<Option<DeclarationBlockId>>, ValidationError>
        decreases none_count(owners),
    {
        let rec = self.spec_block(b);
        let block_id = DeclarationBlockId(b as u32);
        match current {
            None => if actual_last != rec.last_declaration {
                Err(ValidationError::DeclarationLastMismatch { block: block_id, expected: rec.last_declaration, actual: actual_last })
            } else if actual_count != rec.declaration_count {
                Err(ValidationError::DeclarationCountMismatch { block: block_id, expected: rec.declaration_count, actual: actual_count })
            } else {
                Ok(owners)
            },
            Some(d) => if seen.contains(d.0) {
                Err(ValidationError::DeclarationCycle { block: block_id, declaration: d })
            } else if (d.0 as int) >= self.declaration_count() || (d.0 as int) >= owners.len() {
                Err(ValidationError::InvalidDeclarationReference { block: block_id, declaration: d })
            } else {
                match owners[d.0 as int] {
                    Some(first) => Err(ValidationError::DuplicateDeclarationOwner { declaration: d, first, second: block_id }),
                    None => if actual_count == u32::MAX {
                        Err(ValidationError::DeclarationCountMismatch { block: block_id, expected: rec.declaration_count, actual: u32::MAX })
                    } else {
                        proof {
                            lemma_none_count_fill(owners, d.0 as int, Some(block_id));
                        }
                        self.block_walk(b, self.spec_declaration(d.0 as int).next_in_block, Some(d), (actual_count + 1) as u32,
                            seen.insert(d.0), owners.update(d.0 as int, Some(block_id)))
                    },
                }
            },
        }
    }

    /// The checks of block `b`: its endpoints, its chain, then for a live
    /// block its owner and key.
    pub open spec fn block_check(&self, b: int, owners: Seq<Option<DeclarationBlockId>>)
        -> Result<Seq<Option<DeclarationBlockId>>, ValidationError>
    {
        let rec = self.spec_block(b);
        let block_id = DeclarationBlockId(b as u32);
        if (rec.declaration_count == 0) != (rec.first_declaration is None && rec.last_declaration is None)
            || (rec.first_declaration is None) != (rec.last_declaration is None) {
            Err(ValidationError::InvalidDeclarationEndpoints { block: block_id })
        } else {
            match self.block_walk(b, rec.first_declaration, None, 0, Set::empty(), owners) {
                Err(e) => Err(e),
                Ok(after) => self.block_tail(b, after),
            }
        }
    }

    /// The checks of block `b` after its chain: for a live block, its owner
    /// and its key.
    pub open spec fn block_tail(&self, b: int, after: Seq<Option<DeclarationBlockId>>)
        -> Result<Seq<Option<DeclarationBlockId>>, ValidationError>
    {
        let rec = self.spec_block(b);
        let block_id = DeclarationBlockId(b as u32);
        if !rec.live {
            Ok(after)
        } else {
            let owner = rec.owner->Rule_0;
            if (owner.0 as int) >= self.rule_count() {
                Err(ValidationError::MissingBlockOwner { block: block_id, owner })
            } else if !self.spec_rule(owner.0 as int).live {
                Err(ValidationError::RetiredBlockOwner { block: block_id, owner })
            } else if self.spec_rule(owner.0 as int).declaration_block != Some(block_id) {
                Err(ValidationError::OwnerDoesNotReferenceBlock { block: block_id, owner, actual: self.spec_rule(owner.0 as int).declaration_block })
            } else if (rec.effective_key.0 as int) >= self.key_count() {
                Err(ValidationError::MissingEffectiveKey { block: block_id, key: rec.effective_key })
            } else {
                Ok(after)
            }
        }
    }

    /// The rest of the block checks once the walk of block `b` has given
    /// `walked`: its tail, then the blocks after it.
    pub open spec fn after_block_walk(&self, b: int, walked: Result<Seq<Option<DeclarationBlockId>>, ValidationError>)
        -> Result<Seq<Option<DeclarationBlockId>>, ValidationError>
    {
        match walked {
            Err(e) => Err(e),
            Ok(after) => match self.block_tail(b, after) {
                Err(e) => Err(e),
                Ok(next) => self.blocks_from(b + 1, next),
            },
        }
    }

    /// The checks of the blocks from `b` on, in order, threading the owners.
    pub open spec fn blocks_from(&self, b: int, owners: Seq<Option<DeclarationBlockId>>)
        -> Result<Seq<Option<DeclarationBlockId>>, ValidationError>
        decreases self.block_count() - b,
    {
        if b < 0 || b >= self.block_count() {
            Ok(owners)
        } else {
            match self.block_check(b, owners) {
                Err(e) => Err(e),
                Ok(after) => self.blocks_from(b + 1, after),
            }
        }
    }

    /// The first failing check of the blocks, then that every declaration
    /// was met in some block.
    pub open spec fn blocks_result(&self) -> Option<ValidationError> {
        match self.blocks_from(0, unowned(self.declaration_count())) {
            Err(e) => Some(e),
            Ok(owners) => {
                let owned = some_count(owners);
                if owned != self.declaration_count() {
                    Some(ValidationError::UnownedDeclarations { expected: owned as u32, actual: self.declaration_count() as u32 })
                } else {
                    None
                }
            },
        }
    }

    /// What validation answers: the error of the first failing check, in
    /// order — root list, source chain, lists, rules, blocks — or `Ok`.
    pub open spec fn validation_result(&self) -> Result<(), ValidationError> {
        match self.root_check() {
            Some(e) => Err(e),
            None => match self.source_result() {
                Some(e) => Err(e),
                None => match self.lists_from(0, Set::empty()) {
                    Err(e) => Err(e),
                    Ok(visited) => match self.rules_from(visited, 0) {
                        Some(e) => Err(e),
                        None => match self.blocks_result() {
                            Some(e) => Err(e),
                            None => Ok(()),
                        },
                    },
                },
            },
        }
    }

    /// A walk of list `l` that passes from `current` on meets the remaining
    /// members `t` of the list, distinct and new, each linked to its
    /// neighbours, and adds them to the rules met.
    proof fn lemma_list_walk_chain(&self, l: int, current: Option<RuleId>, previous: Option<RuleId>, n: u32,
        visited: Set<u32>) -> (t: Seq<u32>)
        requires
            self.list_walk(l, current, previous, n, visited) is Ok,
        ensures
            n + t.len() == self.spec_list(l).live_len,
            current == rule_at(t, 0),
            self.spec_list(l).last == (if t.len() == 0 { previous } else { Some(RuleId(t.last())) }),
            forall|i: int| 0 <= i < t.len() ==> {
                let rule = self.spec_rule(#[trigger] t[i] as int);
                &&& (t[i] as int) < self.rule_count()
                &&& rule.live
                &&& rule.parent_list == RuleListId(l as u32)
                &&& rule.parent == self.spec_list(l).parent
                &&& rule.previous_sibling == (if i == 0 { previous } else { Some(RuleId(t[i - 1])) })
                &&& rule.next_sibling == rule_at(t, i + 1)
                &&& !visited.contains(t[i])
            },
            forall|i: int, j: int| 0 <= i < j < t.len() ==> #[trigger] t[i] != #[trigger] t[j],
            forall|x: u32| #[trigger] self.list_walk(l, current, previous, n, visited)->Ok_0.contains(x)
                <==> (visited.contains(x) || t.contains(x)),
        decreases self.spec_list(l).live_len - n,
    {
        match current {
            None => Seq::empty(),
            Some(id) => {
                let rule = self.spec_rule(id.0 as int);
                let next = visited.insert(id.0);
                let rest = self.lemma_list_walk_chain(l, rule.next_sibling, Some(id), (n + 1) as u32, next);
                let t = seq![id.0] + rest;
                assert(t[0] == id.0);
                assert forall|i: int| 1 <= i < t.len() implies #[trigger] t[i] == rest[i - 1] by {}
                assert forall|i: int| 0 <= i < t.len() implies {
                    let r = self.spec_rule(#[trigger] t[i] as int);
                    &&& (t[i] as int) < self.rule_count()
                    &&& r.live
                    &&& r.parent_list == RuleListId(l as u32)
                    &&& r.parent == self.spec_list(l).parent
                    &&& r.previous_sibling == (if i == 0 { previous } else { Some(RuleId(t[i - 1])) })
                    &&& r.next_sibling == rule_at(t, i + 1)
                    &&& !visited.contains(t[i])
                } by {
                    if i > 0 {
                        assert(t[i] == rest[i - 1]);
                        if i > 1 {
                            assert(t[i - 1] == rest[i - 2]);
                        }
                        if i + 1 < t.len() {
                            assert(t[i + 1] == rest[i]);
                        }
                    } else if t.len() > 1 {
                        assert(t[1] == rest[0]);
                    }
                }
                assert forall|i: int, j: int| 0 <= i < j < t.len() implies #[trigger] t[i] != #[trigger] t[j] by {
                    assert(t[j] == rest[j - 1]);
                    if i > 0 {
                        assert(t[i] == rest[i - 1]);
                    }
                }
                assert forall|x: u32| #[trigger] self.list_walk(l, current, previous, n, visited)->Ok_0.contains(x)
                    <==> (visited.contains(x) || t.contains(x)) by {
                    if rest.contains(x) {
                        let k = choose|k: int| 0 <= k < rest.len() && rest[k] == x;
                        assert(t[k + 1] == x);
                    }
                    if t.contains(x) && x != id.0 {
                        let k = choose|k: int| 0 <= k < t.len() && t[k] == x;
                        assert(rest[k - 1] == x);
                    }
                }
                t
            },
        }
    }

    /// When the list checks from `l` on pass, every list from `l` on has a
    /// stored sibling chain, and each rule they add to the rules met is a
    /// member of the chain of the list it names.
    proof fn lemma_lists_from_chains(&self, l: int, visited: Set<u32>)
        requires
            0 <= l,
            self.lists_from(l, visited) is Ok,
        ensures
            forall|l2: int| l <= l2 < self.list_count() ==> #[trigger] self.has_stored_list_chain(l2),
            forall|x: u32| #[trigger] self.lists_from(l, visited)->Ok_0.contains(x) && !visited.contains(x)
                ==> self.in_named_list_chain(x),
        decreases self.list_count() - l,
    {
        if l < self.list_count() {
            let list = self.spec_list(l);
            let t = self.lemma_list_walk_chain(l, list.first, None, 0, visited);
            let v1 = self.list_walk(l, list.first, None, 0, visited)->Ok_0;
            assert forall|i: int| 0 <= i < t.len() implies #[trigger] self.list_member_ok(l, t, i) by {
                assert(self.spec_rule(t[i] as int).previous_sibling == rule_at(t, i - 1));
            }
            assert(self.is_stored_list_chain(l, t));
            self.lemma_lists_from_chains(l + 1, v1);
            assert forall|l2: int| l <= l2 < self.list_count() implies #[trigger] self.has_stored_list_chain(l2) by {
                if l2 == l {
                    assert(self.is_stored_list_chain(l, t));
                }
            }
            assert forall|x: u32| #[trigger] self.lists_from(l, visited)->Ok_0.contains(x) && !visited.contains(x)
                implies self.in_named_list_chain(x) by {
                assert(self.lists_from(l, visited)->Ok_0 == self.lists_from(l + 1, v1)->Ok_0);
                if v1.contains(x) {
                    assert(t.contains(x));
                    let k = choose|k: int| 0 <= k < t.len() && t[k] == x;
                    assert(t[k] == x);
                    assert(self.is_stored_list_chain(l, t) && t.contains(x));
                    assert(self.in_stored_list_chain(l, x));
                }
            }
        }
    }

    /// When the rule checks from `x` on pass, each of them passes.
    proof fn lemma_rules_from_none(&self, visited: Set<u32>, x: int)
        requires
            0 <= x,
            self.rules_from(visited, x) is None,
        ensures
            forall|y: int| x <= y < self.rule_count() ==> #[trigger] self.rule_check(visited, y) is None,
        decreases self.rule_count() - x,
    {
        if x < self.rule_count() {
            self.lemma_rules_from_none(visited, x + 1);
        }
    }

    /// When every slot of `owners` counts, every slot holds a block.
    proof fn lemma_some_count_full(owners: Seq<Option<DeclarationBlockId>>)
        requires
            some_count(owners) == owners.len(),
        ensures
            forall|i: int| 0 <= i < owners.len() ==> (#[trigger] owners[i]) is Some,
        decreases owners.len(),
    {
        if owners.len() > 0 {
            lemma_some_count_le(owners.drop_last());
            Self::lemma_some_count_full(owners.drop_last());
            assert forall|i: int| 0 <= i < owners.len() implies (#[trigger] owners[i]) is Some by {
                if i < owners.len() - 1 {
                    assert(owners.drop_last()[i] == owners[i]);
                }
            }
        }
    }

    /// A walk of block `b` that passes from `current` on meets the rest `t`
    /// of its chain: distinct declarations in range, each linked to the next
    /// and the last to none, not met before; it records `b` as the owner of
    /// exactly those.
    proof fn lemma_block_walk_chain(&self, b: int, current: Option<DeclarationId>, actual_last: Option<DeclarationId>,
        actual_count: u32, seen: Set<u32>, owners: Seq<Option<DeclarationBlockId>>) -> (t: Seq<u32>)
        requires
            self.block_walk(b, current, actual_last, actual_count, seen, owners) is Ok,
        ensures
            actual_count + t.len() == self.spec_block(b).declaration_count,
            current == declaration_at(t, 0),
            self.spec_block(b).last_declaration == (if t.len() == 0 { actual_last } else { Some(DeclarationId(t.last())) }),
            forall|i: int| 0 <= i < t.len() ==> {
                &&& (#[trigger] t[i] as int) < self.declaration_count()
                &&& (t[i] as int) < owners.len()
                &&& self.spec_declaration(t[i] as int).next_in_block == declaration_at(t, i + 1)
                &&& !seen.contains(t[i])
                &&& owners[t[i] as int] is None
                &&& self.block_walk(b, current, actual_last, actual_count, seen, owners)->Ok_0[t[i] as int] is Some
            },
            forall|i: int, j: int| 0 <= i < j < t.len() ==> #[trigger] t[i] != #[trigger] t[j],
            self.block_walk(b, current, actual_last, actual_count, seen, owners)->Ok_0.len() == owners.len(),
            forall|x: int| 0 <= x < owners.len() ==>
                #[trigger] self.block_walk(b, current, actual_last, actual_count, seen, owners)->Ok_0[x] == owners[x]
                || (t.contains(x as u32) && (x as u32) as int == x),
        decreases none_count(owners),
    {
        let block_id = DeclarationBlockId(b as u32);
        match current {
            None => Seq::empty(),
            Some(d) => {
                lemma_none_count_fill(owners, d.0 as int, Some(block_id));
                let next = self.spec_declaration(d.0 as int).next_in_block;
                let updated = owners.update(d.0 as int, Some(block_id));
                let rest = self.lemma_block_walk_chain(b, next, Some(d), (actual_count + 1) as u32, seen.insert(d.0), updated);
                let t = seq![d.0] + rest;
                assert(t[0] == d.0);
                assert forall|i: int| 1 <= i < t.len() implies #[trigger] t[i] == rest[i - 1] by {}
                let after = self.block_walk(b, current, actual_last, actual_count, seen, owners)->Ok_0;
                assert(!rest.contains(d.0)) by {
                    if rest.contains(d.0) {
                        let k = choose|k: int| 0 <= k < rest.len() && rest[k] == d.0;
                        assert(!seen.insert(d.0).contains(rest[k]));
                    }
                }
                assert(after[d.0 as int] == updated[d.0 as int]);
                assert forall|i: int| 0 <= i < t.len() implies {
                    &&& (#[trigger] t[i] as int) < self.declaration_count()
                    &&& (t[i] as int) < owners.len()
                    &&& self.spec_declaration(t[i] as int).next_in_block == declaration_at(t, i + 1)
                    &&& !seen.contains(t[i])
                    &&& owners[t[i] as int] is None
                    &&& after[t[i] as int] is Some
                } by {
                    if i > 0 {
                        assert(t[i] == rest[i - 1]);
                        if i + 1 < t.len() {
                            assert(t[i + 1] == rest[i]);
                        }
                    } else if t.len() > 1 {
                        assert(t[1] == rest[0]);
                    }
                }
                assert forall|i: int, j: int| 0 <= i < j < t.len() implies #[trigger] t[i] != #[trigger] t[j] by {
                    assert(t[j] == rest[j - 1]);
                    if i > 0 {
                        assert(t[i] == rest[i - 1]);
                    }
                }
                assert forall|x: int| 0 <= x < owners.len() implies
                    #[trigger] after[x] == owners[x] || (t.contains(x as u32) && (x as u32) as int == x) by {
                    if after[x] != owners[x] {
                        if x == d.0 as int {
                            assert(t[0] == x as u32);
                        } else {
                            assert(updated[x] == owners[x]);
                            let k = choose|k: int| 0 <= k < rest.len() && rest[k] == x as u32;
                            assert(t[k + 1] == x as u32);
                        }
                    }
                }
                t
            },
        }
    }

    /// When the block checks from `b` on pass, every slot they fill names a
    /// declaration that is a member of the stored chain of some block.
    proof fn lemma_blocks_from_owned(&self, b: int, owners: Seq<Option<DeclarationBlockId>>)
        requires
            0 <= b,
            self.blocks_from(b, owners) is Ok,
        ensures
            self.blocks_from(b, owners)->Ok_0.len() == owners.len(),
            forall|x: int| 0 <= x < owners.len() ==> #[trigger] self.blocks_from(b, owners)->Ok_0[x] == owners[x]
                || self.declaration_in_some_chain(x),
        decreases self.block_count() - b,
    {
        if b < self.block_count() {
            let rec = self.spec_block(b);
            let t = self.lemma_block_walk_chain(b, rec.first_declaration, None, 0, Set::empty(), owners);
            let walked = self.block_walk(b, rec.first_declaration, None, 0, Set::empty(), owners)->Ok_0;
            assert(self.is_stored_chain(b, t));
            let next = self.block_check(b, owners)->Ok_0;
            assert(next == walked);
            self.lemma_blocks_from_owned(b + 1, next);
            let result = self.blocks_from(b, owners)->Ok_0;
            assert forall|x: int| 0 <= x < owners.len() implies #[trigger] result[x] == owners[x]
                || self.declaration_in_some_chain(x) by {
                assert(result == self.blocks_from(b + 1, next)->Ok_0);
                if result[x] != owners[x] && next[x] == result[x] {
                    assert(walked[x] != owners[x]);
                    assert(t.contains(x as u32));
                    assert(self.in_stored_block_chain(b, x as u32));
                }
            }
        }
    }

    /// The stored fields of a block describe at most one chain: position
    /// `i` of any two chains they describe agree.
    proof fn lemma_stored_chain_agree(&self, b: int, c1: Seq<u32>, c2: Seq<u32>, i: int)
        requires
            self.is_stored_chain(b, c1),
            self.is_stored_chain(b, c2),
            0 <= i < c1.len(),
        ensures
            c1[i] == c2[i],
        decreases i,
    {
        if i > 0 {
            self.lemma_stored_chain_agree(b, c1, c2, i - 1);
            assert(self.spec_declaration(c1[i - 1] as int).next_in_block == declaration_at(c1, i));
            assert(self.spec_declaration(c2[i - 1] as int).next_in_block == declaration_at(c2, i));
        }
    }

    /// The stored fields of a block describe at most one chain.
    proof fn lemma_stored_chain_unique(&self, b: int, c1: Seq<u32>, c2: Seq<u32>)
        requires
            self.is_stored_chain(b, c1),
            self.is_stored_chain(b, c2),
        ensures
            c1 == c2,
    {
        assert forall|i: int| 0 <= i < c1.len() implies c1[i] == c2[i] by {
            self.lemma_stored_chain_agree(b, c1, c2, i);
        }
        assert(c1 =~= c2);
    }

    /// When the block checks from `b` on pass, the members of the stored
    /// chains of those blocks had no owner in `owners`, and no two of those
    /// chains share a member.
    proof fn lemma_blocks_from_disjoint(&self, b: int, owners: Seq<Option<DeclarationBlockId>>)
        requires
            0 <= b,
            self.blocks_from(b, owners) is Ok,
        ensures
            forall|bb: int, d: u32| b <= bb < self.block_count() && #[trigger] self.in_stored_block_chain(bb, d)
                ==> (d as int) < owners.len() && owners[d as int] is None,
            forall|b1: int, b2: int, d: u32| b <= b1 < self.block_count() && b <= b2 < self.block_count()
                && #[trigger] self.in_stored_block_chain(b1, d) && #[trigger] self.in_stored_block_chain(b2, d) ==> b1 == b2,
        decreases self.block_count() - b,
    {
        if b < self.block_count() {
            let rec = self.spec_block(b);
            let t = self.lemma_block_walk_chain(b, rec.first_declaration, None, 0, Set::empty(), owners);
            let walked = self.block_walk(b, rec.first_declaration, None, 0, Set::empty(), owners)->Ok_0;
            assert(self.is_stored_chain(b, t));
            let next = self.block_check(b, owners)->Ok_0;
            assert(next == walked);
            self.lemma_blocks_from_disjoint(b + 1, next);
            assert forall|d: u32| #[trigger] self.in_stored_block_chain(b, d) implies t.contains(d)
                && (d as int) < owners.len() && owners[d as int] is None && next[d as int] is Some by {
                let c = choose|c: Seq<u32>| self.is_stored_chain(b, c) && c.contains(d);
                self.lemma_stored_chain_unique(b, c, t);
                let k = choose|k: int| 0 <= k < t.len() && t[k] == d;
                assert(t[k] == d);
            }
            assert forall|bb: int, d: u32| b <= bb < self.block_count() && #[trigger] self.in_stored_block_chain(bb, d)
                implies (d as int) < owners.len() && owners[d as int] is None by {
                if bb > b {
                    assert(next[d as int] is None);
                    if owners[d as int] is Some {
                        assert(walked[d as int] == owners[d as int] || t.contains(d));
                        if t.contains(d) {
                            let k = choose|k: int| 0 <= k < t.len() && t[k] == d;
                            assert(t[k] == d);
                        }
                    }
                }
            }
            assert forall|b1: int, b2: int, d: u32| b <= b1 < self.block_count() && b <= b2 < self.block_count()
                && #[trigger] self.in_stored_block_chain(b1, d) && #[trigger] self.in_stored_block_chain(b2, d)
                implies b1 == b2 by {
                if b1 == b && b2 > b {
                    assert(next[d as int] is Some);
                    assert(next[d as int] is None);
                } else if b2 == b && b1 > b {
                    assert(next[d as int] is Some);
                    assert(next[d as int] is None);
                }
            }
        }
    }

    /// A context that passes validation has every declaration record in the
    /// stored chain of exactly one block: validation reports a declaration
    /// that no block holds, or that two blocks share.
    pub proof fn lemma_validated_declarations_owned(&self)
        requires
            self.validation_result() is Ok,
        ensures
            self.stored_declarations_ok(),
    {
        let init = unowned(self.declaration_count());
        let owners = self.blocks_from(0, init)->Ok_0;
        self.lemma_blocks_from_owned(0, init);
        Self::lemma_some_count_full(owners);
        assert forall|d: int| 0 <= d < self.declaration_count() implies #[trigger] self.declaration_in_some_chain(d) by {
            assert(owners[d] is Some);
            assert(init[d] is None);
        }
        self.lemma_blocks_from_disjoint(0, init);
    }

    /// A context whose validation passes has stored sibling chains for all
    /// its lists, each live rule a member of the chain of its list.
    proof fn lemma_validated_lists(&self)
        requires
            self.validation_result() is Ok,
        ensures
            self.stored_lists_ok(),
    {
        let visited = self.lists_from(0, Set::empty())->Ok_0;
        self.lemma_lists_from_chains(0, Set::empty());
        self.lemma_rules_from_none(visited, 0);
        assert forall|x: u32| (x as int) < self.rule_count() && (#[trigger] self.spec_rule(x as int)).live
            implies self.in_named_list_chain(x) by {
            assert(self.rule_check(visited, x as int) is None);
            assert((x as int) as u32 == x);
            assert(visited.contains(x));
            assert(!Set::<u32>::empty().contains(x));
        }
    }

    /// The error of the first check, on the root list, if it fails.
    pub open spec fn root_check(&self) -> Option<ValidationError> {
        let root = self.spec_stylesheet().root_rules;
        if (root.0 as int) >= self.list_count() {
            Some(ValidationError::MissingRootRuleList(root))
        } else {
            match self.spec_list(root.0 as int).parent {
                Some(p) => Some(ValidationError::RootRuleListHasParent(p)),
                None => None,
            }
        }
    }

    /// Checks that the root list exists and has no parent.
    fn validate_root(&self) -> (r: Result<(), ValidationError>)
        ensures
            r == (match self.root_check() {
                Some(e) => Err::<(), ValidationError>(e),
                None => Ok(()),
            }),
            self.wf() ==> r is Ok,
    {
        proof {
            reveal(AstContext::wf_lists);
        }
        let root = self.stylesheet.root_rules;
        if root.0 as usize >= self.rule_lists.len() {
            return Err(ValidationError::MissingRootRuleList(root));
        }
        match self.rule_lists[root.0 as usize].parent {
            Some(parent) => Err(ValidationError::RootRuleListHasParent(parent)),
            None => Ok(()),
        }
    }

    /// Whether `next` names a stored rule.
    fn resolvable(&self, next: Option<RuleId>) -> (r: bool)
        ensures
            r == (next is Some && (next.unwrap().0 as int) < self.rules@.len()),
    {
        match next {
            Some(id) => (id.0 as usize) < self.rules.len(),
            None => false,
        }
    }

    /// Checks the root list and the global source chain: endpoints, mutual
    /// links and strictly increasing labels.
    #[verifier::rlimit(100)]
    #[verifier::spinoff_prover]
    fn validate_source(&self) -> (r: Result<(), ValidationError>)
        ensures
            self.wf() ==> r is Ok,
            r is Ok ==> self.stored_source_ok(),
            self.root_check() is None ==> r == (match self.source_result() {
                Some(e) => Err::<(), ValidationError>(e),
                None => Ok(()),
            }),
    {
        let ghost w = self.wf();
        proof {
            if w {
                assert((self.stylesheet.root_rules.0 as int) < self.rule_lists@.len()
                    && self.rule_lists@[self.stylesheet.root_rules.0 as int].parent is None) by {
                    reveal(AstContext::wf_lists);
                }
            }
        }
        let root = self.stylesheet.root_rules;
        if root.0 as usize >= self.rule_lists.len() {
            return Err(ValidationError::MissingRootRuleList(root));
        }
        if let Some(parent) = self.rule_lists[root.0 as usize].parent {
            return Err(ValidationError::RootRuleListHasParent(parent));
        }
        let ghost s = self.source@;
        proof {
            if w {
                assert(self.first_rule_in_source == rule_at(s, 0)) by {
                    reveal(AstContext::wf_source);
                }
            }
        }
        let mut ids: Vec<u32> = Vec::new();
        let mut next = self.first_rule_in_source;
        let mut remaining = self.rules.len();
        while remaining > 0 && self.resolvable(next)
            invariant
                ids@.len() + remaining == self.rules@.len(),
                forall|i: int| 0 <= i < ids@.len() ==> (#[trigger] ids@[i] as int) < self.rules@.len(),
                forall|i: int| 0 <= i < ids@.len() ==> self.rules@[#[trigger] ids@[i] as int].next_in_source
                    == (if i + 1 < ids@.len() { Some(RuleId(ids@[i + 1])) } else { next }),
                ids@.len() == 0 ==> next == self.first_rule_in_source,
                ids@ + self.source_walk(next, remaining as nat) == self.source_walk(self.first_rule_in_source, self.rules@.len() as nat),
                w ==> s == self.source@ && ids@ == s.take(ids@.len() as int) && next == rule_at(s, ids@.len() as int),
                w == self.wf(),
            decreases remaining,
        {
            proof {
                reveal(AstContext::wf_source);
            }
            let id = next.unwrap();
            let ghost before = ids@;
            let ghost old_next = next;
            let ghost old_remaining = remaining;
            ids.push(id.0);
            next = self.rules[id.0 as usize].next_in_source;
            remaining = remaining - 1;
            proof {
                assert(self.source_walk(old_next, old_remaining as nat)
                    == seq![id.0] + self.source_walk(next, remaining as nat));
                assert(ids@ + self.source_walk(next, remaining as nat)
                    =~= before + self.source_walk(old_next, old_remaining as nat));
            }
            proof {
                if w {
                    assert(ids@ =~= s.take(ids@.len() as int));
                }
            }
        }
        proof {
            if w {
                assert(ids@ =~= s && s.len() == self.rules@.len() && self.first_rule_in_source == rule_at(s, 0)
                    && self.last_rule_in_source == rule_at(s, s.len() - 1)) by {
                    reveal(AstContext::wf_source);
                    if remaining > 0 {
                        assert(s[ids@.len() as int] < self.rules@.len());
                    }
                    assert(ids@ =~= s);
                }
            }
        }
        proof {
            assert(self.source_walk(next, remaining as nat) =~= Seq::<u32>::empty());
            assert(ids@ =~= self.source_walk(self.first_rule_in_source, self.rules@.len() as nat));
        }
        let n = ids.len();
        let first = if n > 0 { Some(RuleId(ids[0])) } else { None };
        let last = if n > 0 { Some(RuleId(ids[n - 1])) } else { None };
        if n != self.rules.len() || self.first_rule_in_source != first || self.last_rule_in_source != last {
            return Err(ValidationError::InvalidSourceEndpoints);
        }
        let links = self.validate_source_links(&ids);
        proof {
            if links is Ok {
                assert(self.is_stored_source_chain(ids@));
            }
        }
        links
    }

    /// Checks the links and labels along the walked source chain `ids`.
    #[verifier::rlimit(100)]
    #[verifier::spinoff_prover]
    fn validate_source_links(&self, ids: &Vec<u32>) -> (r: Result<(), ValidationError>)
        requires
            ids@.len() == self.rules@.len(),
            forall|i: int| 0 <= i < ids@.len() ==> (#[trigger] ids@[i] as int) < self.rules@.len(),
            self.wf() ==> ids@ == self.source@,
        ensures
            self.wf() ==> r is Ok,
            r == (match self.source_links_from(ids@, 0) {
                Some(e) => Err::<(), ValidationError>(e),
                None => Ok(()),
            }),
            r is Ok ==> forall|i: int| 0 <= i < ids@.len() ==> self.rules@[#[trigger] ids@[i] as int].previous_in_source
                == rule_at(ids@, i - 1) && self.rules@[ids@[i] as int].next_in_source == rule_at(ids@, i + 1),
            r is Ok ==> forall|i: int| 0 <= i < ids@.len() - 1 ==> #[trigger] self.label_rises_at(ids@, i),
    {
        let ghost w = self.wf();
        let ghost s = self.source@;
        let n = ids.len();
        let mut index: usize = 0;
        while index < n
            invariant
                n == ids@.len(),
                n == self.rules@.len(),
                forall|i: int| 0 <= i < n ==> (#[trigger] ids@[i] as int) < self.rules@.len(),
                index <= n,
                forall|i: int| 0 <= i < index ==> self.rules@[#[trigger] ids@[i] as int].previous_in_source
                    == rule_at(ids@, i - 1) && self.rules@[ids@[i] as int].next_in_source == rule_at(ids@, i + 1),
                forall|i: int| 0 <= i < index && i + 1 < n ==> #[trigger] self.label_rises_at(ids@, i),
                self.source_links_from(ids@, 0) == self.source_links_from(ids@, index as int),
                w ==> s == self.source@ && ids@ == s,
                w == self.wf(),
            decreases n - index,
        {
            proof {
                if w {
                    let i = index as int;
                    assert(self.rules@[s[i] as int].previous_in_source == rule_at(s, i - 1)
                        && self.rules@[s[i] as int].next_in_source == rule_at(s, i + 1)
                        && (i + 1 < n ==> self.rules@[s[i] as int].source_order_id.0
                            < self.rules@[s[i + 1] as int].source_order_id.0)) by {
                        reveal(AstContext::wf_source);
                    }
                }
            }
            let rule_id = RuleId(ids[index]);
            let rule = &self.rules[ids[index] as usize];
            proof {
                assert(self.spec_rule(ids@[index as int] as int) == *rule);
            }
            let expected_previous = if index > 0 { Some(RuleId(ids[index - 1])) } else { None };
            if rule.previous_in_source != expected_previous {
                return Err(ValidationError::InvalidSourcePrevious {
                    rule: rule_id,
                    expected: expected_previous,
                    actual: rule.previous_in_source,
                });
            }
            let expected_next = if index + 1 < n { Some(RuleId(ids[index + 1])) } else { None };
            if rule.next_in_source != expected_next {
                return Err(ValidationError::InvalidSourceNext {
                    rule: rule_id,
                    expected: expected_next,
                    actual: rule.next_in_source,
                });
            }
            if index + 1 < n {
                let next_id = RuleId(ids[index + 1]);
                let next_record = &self.rules[ids[index + 1] as usize];
                if rule.source_order_id.0 >= next_record.source_order_id.0 {
                    return Err(ValidationError::InvalidSourceOrder { previous: rule_id, next: next_id });
                }
            }
            proof {
                assert(self.source_links_from(ids@, index as int) == self.source_links_from(ids@, index + 1));
            }
            index = index + 1;
        }
        proof {
            assert(self.source_links_from(ids@, n as int) is None);
        }
        Ok(())
    }
}

} // verus!

verus! {

impl<R, D> AstContext<R, D> {
    /// `visited` holds exactly the live rules of the lists before `l` and the
    /// first `i` live rules of list `l`.
    closed spec fn visited_lists(&self, visited: Set<u32>, l: int, i: int) -> bool {
        forall|x: u32| #[trigger] visited.contains(x) <==> {
            &&& (x as int) < self.rules@.len()
            &&& self.rules@[x as int].live
            &&& ((self.rules@[x as int].parent_list.0 as int) < l
                || (self.rules@[x as int].parent_list.0 as int == l && self.list_pos@[x as int] < i))
        }
    }

    /// Checks every list: its owner, its endpoints, and its members with
    /// their sibling links; returns the set of rules met in lists.
    fn validate_lists(&self) -> (r: Result<FxHashSet<u32>, ValidationError>)
        ensures
            self.wf() ==> (r matches Ok(visited) && self.visited_lists(fx_set_contents(visited), self.rule_lists@.len() as int, 0)),
            r is Ok ==> forall|l: int| 0 <= l < self.list_count() ==> #[trigger] self.stored_list_ok(l),
            match self.lists_from(0, Set::empty()) {
                Ok(v) => r is Ok && fx_set_contents(r->Ok_0) == v,
                Err(e) => r is Err && r->Err_0 == e,
            },
    {
        let ghost w = self.wf();
        proof {
            reveal(AstContext::wf_sizes);
        }
        let mut visited = fx_set_new();
        let mut l: usize = 0;
        proof {
            assert(fx_set_contents(visited) =~= Set::<u32>::empty());
            reveal(AstContext::wf_lists);
            if w {
            assert forall|x: u32| #[trigger] fx_set_contents(visited).contains(x) <==> {
                &&& (x as int) < self.rules@.len()
                &&& self.rules@[x as int].live
                &&& ((self.rules@[x as int].parent_list.0 as int) < 0
                    || (self.rules@[x as int].parent_list.0 as int == 0 && self.list_pos@[x as int] < 0))
            } by {
                if (x as int) < self.rules@.len() && self.rules@[x as int].live {
                    assert(0 <= self.list_pos@[x as int]);
                }
            }
            }
        }
        while l < self.rule_lists.len()
            invariant
                w == self.wf(),
                l <= self.rule_lists@.len(),
                w ==> self.visited_lists(fx_set_contents(visited), l as int, 0),
                forall|l2: int| 0 <= l2 < l ==> #[trigger] self.stored_list_ok(l2),
                self.lists_from(0, Set::empty()) == self.lists_from(l as int, fx_set_contents(visited)),
            decreases self.rule_lists@.len() - l,
        {
            proof {
                reveal(AstContext::wf_lists);
                reveal(AstContext::wf_tree);
                reveal(AstContext::wf_sizes);
            }
            let list = self.rule_lists[l];
            let list_id = RuleListId(l as u32);
            let ghost ls = self.lists@[l as int];
            if let Some(parent) = list.parent {
                if parent.0 as usize >= self.rules.len() {
                    return Err(ValidationError::MissingListParent { list: list_id, parent });
                }
                if !self.rules[parent.0 as usize].live {
                    return Err(ValidationError::RetiredListParent { list: list_id, parent });
                }
                if self.rules[parent.0 as usize].child_list != Some(list_id) {
                    return Err(ValidationError::ParentDoesNotOwnList { list: list_id, parent });
                }
            }
            if (list.live_len == 0) != (list.first.is_none() && list.last.is_none())
                || (list.first.is_none() != list.last.is_none()) {
                return Err(ValidationError::InvalidListEndpoints(list_id));
            }
            proof {
                assert(self.stored_list_ok(l as int));
                assert(self.list_check(l as int, fx_set_contents(visited))
                    == self.list_walk(l as int, list.first, None, 0, fx_set_contents(visited)));
            }
            let mut current = list.first;
            let mut previous: Option<RuleId> = None;
            let mut actual_len: u32 = 0;
            while current.is_some()
                invariant
                    w == self.wf(),
                    l < self.rule_lists@.len(),
                    list == self.rule_lists@[l as int],
                    list_id == RuleListId(l as u32),
                    actual_len <= list.live_len,
                    forall|l2: int| 0 <= l2 <= l ==> #[trigger] self.stored_list_ok(l2),
                    self.lists_from(0, Set::empty()) == (match self.list_walk(l as int, current, previous, actual_len, fx_set_contents(visited)) {
                        Err(e) => Err(e),
                        Ok(v) => self.lists_from(l + 1, v),
                    }),
                    w ==> {
                        &&& (l as u32) as int == l
                        &&& ls == self.lists@[l as int]
                        &&& ls.len() == list.live_len
                        &&& actual_len <= ls.len()
                        &&& current == rule_at(ls, actual_len as int)
                        &&& previous == rule_at(ls, actual_len - 1)
                        &&& list.last == rule_at(ls, ls.len() - 1)
                        &&& self.visited_lists(fx_set_contents(visited), l as int, actual_len as int)
                    },
                decreases list.live_len - actual_len,
            {
                proof {
                    reveal(AstContext::wf_lists);
                }
                let rule_id = current.unwrap();
                proof {
                    if w {
                        assert(ls[actual_len as int] == rule_id.0);
                        assert(rule_id.0 < self.rules@.len());
                    }
                }
                if rule_id.0 as usize >= self.rules.len() {
                    return Err(ValidationError::MissingRule(rule_id));
                }
                let rule = &self.rules[rule_id.0 as usize];
                if !rule.live {
                    return Err(ValidationError::RetiredRuleInList { list: list_id, rule: rule_id });
                }
                if rule.parent_list != list_id {
                    return Err(ValidationError::RuleHasWrongParentList { list: list_id, rule: rule_id });
                }
                if rule.parent != list.parent {
                    return Err(ValidationError::RuleHasWrongParent { list: list_id, rule: rule_id });
                }
                if rule.previous_sibling != previous {
                    return Err(ValidationError::RuleHasWrongPrevious { rule: rule_id, expected: previous });
                }
                let ghost before = fx_set_contents(visited);
                let ghost old_previous = previous;
                let ghost old_len = actual_len;
                proof {
                    assert(self.spec_rule(rule_id.0 as int) == *rule);
                }
                let fresh = fx_set_insert(&mut visited, rule_id.0);
                if !fresh {
                    return Err(ValidationError::LiveRuleIsNotInOneList(rule_id));
                }
                previous = Some(rule_id);
                current = rule.next_sibling;
                if actual_len == u32::MAX {
                    return Err(ValidationError::ListLengthMismatch { list: list_id, expected: list.live_len, actual: u32::MAX });
                }
                actual_len = actual_len + 1;
                if actual_len > list.live_len {
                    return Err(ValidationError::ListLengthMismatch { list: list_id, expected: list.live_len, actual: actual_len });
                }
                proof {
                    assert(self.list_walk(l as int, Some(rule_id), old_previous, old_len, before)
                        == self.list_walk(l as int, current, previous, actual_len, fx_set_contents(visited)));
                    let k = actual_len as int;
                    if w {
                    assert forall|x: u32| #[trigger] fx_set_contents(visited).contains(x) <==> {
                        &&& (x as int) < self.rules@.len()
                        &&& self.rules@[x as int].live
                        &&& ((self.rules@[x as int].parent_list.0 as int) < l
                            || (self.rules@[x as int].parent_list.0 as int == l && self.list_pos@[x as int] < k))
                    } by {
                        if x == rule_id.0 {
                            assert(self.list_pos@[x as int] == k - 1);
                        } else if (x as int) < self.rules@.len() && self.rules@[x as int].live
                            && self.rules@[x as int].parent_list.0 as int == l && self.list_pos@[x as int] == k - 1 {
                            assert(ls[k - 1] == x);
                        }
                    }
                    }
                }
            }
            if previous != list.last {
                return Err(ValidationError::ListDoesNotEndAtLast(list_id));
            }
            if actual_len != list.live_len {
                return Err(ValidationError::ListLengthMismatch { list: list_id, expected: list.live_len, actual: actual_len });
            }
            proof {
                reveal(AstContext::wf_lists);
                if w {
                assert forall|x: u32| #[trigger] fx_set_contents(visited).contains(x) <==> {
                    &&& (x as int) < self.rules@.len()
                    &&& self.rules@[x as int].live
                    &&& ((self.rules@[x as int].parent_list.0 as int) < l + 1
                        || (self.rules@[x as int].parent_list.0 as int == l + 1 && self.list_pos@[x as int] < 0))
                } by {
                    if (x as int) < self.rules@.len() && self.rules@[x as int].live {
                        assert(0 <= self.list_pos@[x as int]);
                        if self.rules@[x as int].parent_list.0 as int == l {
                            assert(self.list_pos@[x as int] < ls.len());
                        }
                    }
                }
                }
            }
            l = l + 1;
        }
        Ok(visited)
    }
}

} // verus!

verus! {

impl<R, D> AstContext<R, D> {
    /// Checks that every live rule was met in a list and owns the child list
    /// and declaration block it names.
    fn validate_rules(&self, visited: &FxHashSet<u32>) -> (r: Result<(), ValidationError>)
        requires
            self.wf() ==> self.visited_lists(fx_set_contents(*visited), self.rule_lists@.len() as int, 0),
        ensures
            self.wf() ==> r is Ok,
            r is Ok ==> forall|x: int| 0 <= x < self.rule_count() ==> #[trigger] self.stored_rule_ok(x),
            r == (match self.rules_from(fx_set_contents(*visited), 0) {
                Some(e) => Err::<(), ValidationError>(e),
                None => Ok(()),
            }),
    {
        let ghost w = self.wf();
        proof {
            reveal(AstContext::wf_sizes);
        }
        let mut index: usize = 0;
        while index < self.rules.len()
            invariant
                w == self.wf(),
                w ==> self.visited_lists(fx_set_contents(*visited), self.rule_lists@.len() as int, 0),
                index <= self.rules@.len(),
                w ==> self.rules@.len() <= u32::MAX,
                forall|x: int| 0 <= x < index ==> #[trigger] self.stored_rule_ok(x),
                self.rules_from(fx_set_contents(*visited), 0) == self.rules_from(fx_set_contents(*visited), index as int),
            decreases self.rules@.len() - index,
        {
            proof {
                reveal(AstContext::wf_lists);
                reveal(AstContext::wf_tree);
                reveal(AstContext::wf_blocks);
            }
            let rule_id = RuleId(index as u32);
            let rule = &self.rules[index];
            proof {
                assert(self.spec_rule(index as int) == *rule);
            }
            if rule.live && !fx_set_contains(visited, index as u32) {
                return Err(ValidationError::LiveRuleIsNotInOneList(rule_id));
            }
            if rule.live {
                if let Some(list_id) = rule.child_list {
                    if list_id.0 as usize >= self.rule_lists.len() {
                        return Err(ValidationError::MissingOwnedChildList { rule: rule_id, list: list_id });
                    }
                    let list = &self.rule_lists[list_id.0 as usize];
                    if list.parent != Some(rule_id) {
                        return Err(ValidationError::ChildListHasWrongParent { rule: rule_id, list: list_id, actual: list.parent });
                    }
                }
                if let Some(block_id) = rule.declaration_block {
                    if block_id.0 as usize >= self.declaration_blocks.len() {
                        return Err(ValidationError::MissingOwnedDeclarationBlock { rule: rule_id, block: block_id });
                    }
                    let DeclarationBlockOwner::Rule(actual) = self.declaration_blocks[block_id.0 as usize].owner;
                    if actual != rule_id {
                        return Err(ValidationError::DeclarationBlockHasWrongOwner { rule: rule_id, block: block_id, actual });
                    }
                }
            }
            proof {
                assert(self.rules_from(fx_set_contents(*visited), index as int)
                    == self.rules_from(fx_set_contents(*visited), index + 1));
            }
            index = index + 1;
        }
        Ok(())
    }

    /// `owners` records, for each declaration, the block of the chains
    /// walked so far that holds it: blocks before `b`, and the first `i`
    /// declarations of block `b`.
    closed spec fn owners_walked(&self, owners: Seq<Option<DeclarationBlockId>>, b: int, i: int) -> bool {
        &&& owners.len() == self.declarations@.len()
        &&& forall|x: int| 0 <= x < owners.len() ==> #[trigger] owners[x] == (
            if self.decl_owner@[x] < b || (self.decl_owner@[x] == b && self.decl_pos@[x] < i) {
                Some(DeclarationBlockId(self.decl_owner@[x] as u32))
            } else {
                None
            })
    }

    /// Walks the chain of block `b` from its stored head, recording `b` as
    /// the owner of each declaration met, and checks that the walk ends at
    /// the stored tail after the stored count.
    #[verifier::rlimit(100)]
    #[verifier::spinoff_prover]
    fn walk_block_chain(&self, b: usize, owners: &mut Vec<Option<DeclarationBlockId>>) -> (r: Result<(), ValidationError>)
        requires
            b < self.declaration_blocks@.len(),
            old(owners)@.len() == self.declarations@.len(),
            self.wf() ==> self.owners_walked(old(owners)@, b as int, 0),
        ensures
            final(owners)@.len() == old(owners)@.len(),
            match self.block_walk(b as int, self.spec_block(b as int).first_declaration, None, 0, Set::empty(), old(owners)@) {
                Ok(after) => r is Ok && final(owners)@ == after,
                Err(e) => r == Err::<(), ValidationError>(e),
            },
            r is Ok ==> exists|c: Seq<u32>| self.is_stored_chain(b as int, c),
            self.wf() ==> r is Ok && self.owners_walked(final(owners)@, b as int + 1, 0),
    {
        let ghost w = self.wf();
        let ghost owners0 = owners@;
        proof {
            reveal(AstContext::wf_sizes);
            reveal(AstContext::wf_blocks);
        }
        let block_id = DeclarationBlockId(b as u32);
        let block = &self.declaration_blocks[b];
        let ghost c = self.chains@[b as int];
        let mut current = block.first_declaration;
        let mut actual_last: Option<DeclarationId> = None;
        let mut actual_count: u32 = 0;
        let mut visited = fx_set_new();
        let ghost mut cur: Seq<u32> = Seq::empty();
        proof {
            assert(fx_set_contents(visited) =~= Set::<u32>::empty());
        }
        while current.is_some()
            invariant
                w == self.wf(),
                owners0 == old(owners)@,
                owners0.len() == self.declarations@.len(),
                b < self.declaration_blocks@.len(),
                block == &self.declaration_blocks@[b as int],
                block_id == DeclarationBlockId(b as u32),
                owners@.len() == self.declarations@.len(),
                actual_count == cur.len(),
                actual_last == declaration_at(cur, cur.len() - 1),
                block.first_declaration == (if cur.len() == 0 { current } else { Some(DeclarationId(cur[0])) }),
                cur.len() > 0 ==> current == self.declarations@[cur.last() as int].next_in_block,
                forall|i: int| 0 <= i < cur.len() ==> (#[trigger] cur[i] as int) < self.declarations@.len(),
                forall|i: int| 0 <= i < cur.len() - 1 ==>
                    self.declarations@[#[trigger] cur[i] as int].next_in_block == Some(DeclarationId(cur[i + 1])),
                forall|i: int, j: int| 0 <= i < j < cur.len() ==> #[trigger] cur[i] != #[trigger] cur[j],
                forall|x: u32| #[trigger] fx_set_contents(visited).contains(x) ==> cur.contains(x),
                forall|i: int| 0 <= i < cur.len() ==> fx_set_contents(visited).contains(#[trigger] cur[i]),
                self.block_walk(b as int, block.first_declaration, None, 0, Set::empty(), owners0)
                    == self.block_walk(b as int, current, actual_last, actual_count, fx_set_contents(visited), owners@),
                w ==> {
                    &&& (b as u32) as int == b
                    &&& c == self.chains@[b as int]
                    &&& c.len() == block.declaration_count
                    &&& block.last_declaration == declaration_at(c, c.len() - 1)
                    &&& actual_count <= c.len()
                    &&& current == declaration_at(c, actual_count as int)
                    &&& actual_last == declaration_at(c, actual_count - 1)
                    &&& (forall|x: u32| #[trigger] fx_set_contents(visited).contains(x) <==> {
                        &&& (x as int) < self.declarations@.len()
                        &&& self.decl_owner@[x as int] == b
                        &&& self.decl_pos@[x as int] < actual_count
                    })
                    &&& self.owners_walked(owners@, b as int, actual_count as int)
                },
            decreases none_count(owners@),
        {
            proof {
                reveal(AstContext::wf_blocks);
            }
            let declaration = current.unwrap();
            let ghost old_seen = fx_set_contents(visited);
            let ghost old_owners = owners@;
            let ghost old_last = actual_last;
            let ghost old_count = actual_count;
            proof {
                if w {
                    assert(c[actual_count as int] == declaration.0);
                    assert(declaration.0 < self.declarations@.len());
                }
                assert(current == Some(declaration));
            }
            let fresh = fx_set_insert(&mut visited, declaration.0);
            if !fresh {
                proof {
                    assert(old_seen.contains(declaration.0));
                    assert(owners@ == old_owners);
                    assert(self.block_walk(b as int, Some(declaration), old_last, old_count, old_seen, old_owners)
                        == Err::<Seq<Option<DeclarationBlockId>>, ValidationError>(
                            ValidationError::DeclarationCycle { block: block_id, declaration }));
                }
                return Err(ValidationError::DeclarationCycle { block: block_id, declaration });
            }
            if declaration.0 as usize >= self.declarations.len() {
                return Err(ValidationError::InvalidDeclarationReference { block: block_id, declaration });
            }
            let record = &self.declarations[declaration.0 as usize];
            if declaration.0 as usize >= owners.len() {
                return Err(ValidationError::InvalidDeclarationReference { block: block_id, declaration });
            }
            if let Some(first) = owners[declaration.0 as usize] {
                return Err(ValidationError::DuplicateDeclarationOwner { declaration, first, second: block_id });
            }
            let ghost owners_before = owners@;
            owners.set(declaration.0 as usize, Some(block_id));
            proof {
                lemma_none_count_fill(owners_before, declaration.0 as int, Some(block_id));
            }
            if actual_count == u32::MAX {
                return Err(ValidationError::DeclarationCountMismatch { block: block_id, expected: block.declaration_count, actual: u32::MAX });
            }
            let ghost cur_before = cur;
            proof {
                assert(!cur.contains(declaration.0));
                cur = cur.push(declaration.0);
                assert forall|i: int, j: int| 0 <= i < j < cur.len() implies #[trigger] cur[i] != #[trigger] cur[j] by {
                    if j == cur.len() - 1 {
                        assert(cur_before.contains(cur[i]));
                    }
                }
                assert forall|i: int| 0 <= i < cur.len() implies (#[trigger] cur[i] as int) < self.declarations@.len() by {
                    if i < cur.len() - 1 {
                        assert(cur[i] == cur_before[i]);
                    }
                }
                assert forall|i: int| 0 <= i < cur.len() - 1 implies
                    self.declarations@[#[trigger] cur[i] as int].next_in_block == Some(DeclarationId(cur[i + 1])) by {
                    if i < cur.len() - 2 {
                        assert(cur[i] == cur_before[i] && cur[i + 1] == cur_before[i + 1]);
                    }
                }
                assert forall|x: u32| #[trigger] fx_set_contents(visited).contains(x) implies cur.contains(x) by {
                    if x != declaration.0 {
                        assert(cur_before.contains(x));
                        let k = choose|k: int| 0 <= k < cur_before.len() && cur_before[k] == x;
                        assert(cur[k] == x);
                    } else {
                        assert(cur[cur.len() - 1] == x);
                    }
                }
                assert forall|i: int| 0 <= i < cur.len() implies fx_set_contents(visited).contains(#[trigger] cur[i]) by {
                    if i < cur.len() - 1 {
                        assert(cur[i] == cur_before[i]);
                    }
                }
            }
            actual_count = actual_count + 1;
            actual_last = Some(declaration);
            current = record.next_in_block;
            proof {
                assert(self.spec_declaration(declaration.0 as int) == *record);
                assert(fx_set_contents(visited) == old_seen.insert(declaration.0));
                assert(self.block_walk(b as int, Some(declaration), old_last, old_count, old_seen, old_owners)
                    == self.block_walk(b as int, current, actual_last, actual_count, fx_set_contents(visited), owners@));
                let k = actual_count as int;
                if w {
                    assert forall|x: u32| #[trigger] fx_set_contents(visited).contains(x) <==> {
                        &&& (x as int) < self.declarations@.len()
                        &&& self.decl_owner@[x as int] == b
                        &&& self.decl_pos@[x as int] < k
                    } by {
                        if (x as int) < self.declarations@.len() && self.decl_owner@[x as int] == b
                            && self.decl_pos@[x as int] == k - 1 {
                            assert(c[k - 1] == x);
                        }
                    }
                    assert forall|x: int| 0 <= x < owners@.len() implies #[trigger] owners@[x] == (
                        if self.decl_owner@[x] < b || (self.decl_owner@[x] == b && self.decl_pos@[x] < k) {
                            Some(DeclarationBlockId(self.decl_owner@[x] as u32))
                        } else {
                            None
                        }) by {
                        if x == declaration.0 {
                            assert(self.decl_owner@[x] == b && self.decl_pos@[x] == k - 1);
                        } else if self.decl_owner@[x] == b && self.decl_pos@[x] == k - 1 {
                            assert(c[k - 1] == x);
                        }
                    }
                }
            }
        }
        if actual_last != block.last_declaration {
            return Err(ValidationError::DeclarationLastMismatch { block: block_id, expected: block.last_declaration, actual: actual_last });
        }
        if actual_count != block.declaration_count {
            return Err(ValidationError::DeclarationCountMismatch { block: block_id, expected: block.declaration_count, actual: actual_count });
        }
        proof {
            assert(self.is_stored_chain(b as int, cur));
            reveal(AstContext::wf_blocks);
            if w {
                assert forall|x: int| 0 <= x < owners@.len() implies #[trigger] owners@[x] == (
                    if self.decl_owner@[x] < b + 1 || (self.decl_owner@[x] == b + 1 && self.decl_pos@[x] < 0) {
                        Some(DeclarationBlockId(self.decl_owner@[x] as u32))
                    } else {
                        None
                    }) by {
                    assert(0 <= self.decl_owner@[x]);
                    assert(0 <= self.decl_pos@[x]);
                    if self.decl_owner@[x] == b {
                        assert(self.decl_pos@[x] < c.len());
                    }
                }
            }
        }
        Ok(())
    }

    /// Checks every block: its endpoints, its chain (no cycle, no foreign or
    /// shared declaration, matching count and tail) and, for a live block,
    /// its owner and key; then checks that every declaration has an owner.
    #[verifier::rlimit(80)]
    fn validate_blocks(&self) -> (r: Result<(), ValidationError>)
        ensures
            self.wf() ==> r == Ok::<(), ValidationError>(()),
            r is Ok ==> forall|b: int| 0 <= b < self.block_count() ==> #[trigger] self.stored_block_ok(b),
            r == (match self.blocks_result() {
                Some(e) => Err::<(), ValidationError>(e),
                None => Ok(()),
            }),
    {
        let ghost w = self.wf();
        proof {
            reveal(AstContext::wf_sizes);
            reveal(AstContext::wf_blocks);
        }
        let mut owners: Vec<Option<DeclarationBlockId>> = Vec::new();
        while owners.len() < self.declarations.len()
            invariant
                owners@.len() <= self.declarations@.len(),
                forall|x: int| 0 <= x < owners@.len() ==> #[trigger] owners@[x] is None,
            decreases self.declarations@.len() - owners@.len(),
        {
            owners.push(None);
        }
        let ghost init: Seq<Option<DeclarationBlockId>> = unowned(self.declaration_count());
        proof {
            assert(owners@ =~= init);
            reveal(AstContext::wf_blocks);
            if w {
                assert forall|x: int| 0 <= x < owners@.len() implies #[trigger] owners@[x] == (
                    if self.decl_owner@[x] < 0 || (self.decl_owner@[x] == 0 && self.decl_pos@[x] < 0) {
                        Some(DeclarationBlockId(self.decl_owner@[x] as u32))
                    } else {
                        None
                    }) by {
                    assert(0 <= self.decl_owner@[x] && 0 <= self.decl_pos@[x]);
                }
            }
        }
        let mut b: usize = 0;
        while b < self.declaration_blocks.len()
            invariant
                w == self.wf(),
                b <= self.declaration_blocks@.len(),
                owners@.len() == self.declarations@.len(),
                w ==> self.declaration_blocks@.len() <= u32::MAX,
                w ==> self.owners_walked(owners@, b as int, 0),
                forall|b2: int| 0 <= b2 < b ==> #[trigger] self.stored_block_ok(b2),
                init == unowned(self.declaration_count()),
                self.blocks_from(0, init) == self.blocks_from(b as int, owners@),
            decreases self.declaration_blocks@.len() - b,
        {
            proof {
                reveal(AstContext::wf_blocks);
            }
            let block_id = DeclarationBlockId(b as u32);
            let block = &self.declaration_blocks[b];
            let ghost before = owners@;
            proof {
                assert(self.spec_block(b as int) == *block);
                if w {
                    let c = self.chains@[b as int];
                    assert(c.len() == block.declaration_count);
                    assert((b as u32) as int == b);
                }
            }
            if (block.declaration_count == 0) != (block.first_declaration.is_none() && block.last_declaration.is_none())
                || block.first_declaration.is_none() != block.last_declaration.is_none() {
                return Err(ValidationError::InvalidDeclarationEndpoints { block: block_id });
            }
            match self.walk_block_chain(b, &mut owners) {
                Ok(()) => {},
                Err(e) => {
                    return Err(e);
                },
            }
            if block.live {
                let DeclarationBlockOwner::Rule(owner) = block.owner;
                if owner.0 as usize >= self.rules.len() {
                    return Err(ValidationError::MissingBlockOwner { block: block_id, owner });
                }
                let owner_record = &self.rules[owner.0 as usize];
                if !owner_record.live {
                    return Err(ValidationError::RetiredBlockOwner { block: block_id, owner });
                }
                if owner_record.declaration_block != Some(block_id) {
                    return Err(ValidationError::OwnerDoesNotReferenceBlock { block: block_id, owner, actual: owner_record.declaration_block });
                }
                if block.effective_key.0 as usize >= self.effective_keys.len() {
                    return Err(ValidationError::MissingEffectiveKey { block: block_id, key: block.effective_key });
                }
            }
            proof {
                assert(self.stored_block_ok(b as int));
                assert(self.blocks_from(b as int, before) == self.blocks_from(b + 1, owners@));
            }
            b = b + 1;
        }
        proof {
            assert(self.blocks_from(b as int, owners@) == Ok::<Seq<Option<DeclarationBlockId>>, ValidationError>(owners@));
            assert(owners@.take(0) =~= Seq::<Option<DeclarationBlockId>>::empty());
        }
        let mut owned: usize = 0;
        let mut index: usize = 0;
        while index < owners.len()
            invariant
                w == self.wf(),
                w ==> self.owners_walked(owners@, self.declaration_blocks@.len() as int, 0),
                index <= owners@.len(),
                owned <= index,
                w ==> owned == index,
                owned == some_count(owners@.take(index as int)),
                self.blocks_from(0, init) == Ok::<Seq<Option<DeclarationBlockId>>, ValidationError>(owners@),
                init == unowned(self.declaration_count()),
                owners@.len() == self.declarations@.len(),
            decreases owners@.len() - index,
        {
            proof {
                assert(owners@.take(index + 1).drop_last() =~= owners@.take(index as int));
                if w {
                    reveal(AstContext::wf_blocks);
                    assert(self.decl_owner@[index as int] < self.declaration_blocks@.len());
                }
            }
            if owners[index].is_some() {
                owned = owned + 1;
            }
            index = index + 1;
        }
        proof {
            assert(owners@.take(index as int) =~= owners@);
        }
        if owned != self.declarations.len() {
            return Err(ValidationError::UnownedDeclarations { expected: owned as u32, actual: self.declarations.len() as u32 });
        }
        Ok(())
    }

    /// Checks typed store identities, list endpoints, mutual links and block
    /// owners of any context, and answers with the error of the first check
    /// that fails, as [`Self::validation_result`] orders them. A context that
    /// passes has the stored-field consistency of [`Self::stored_fields_ok`];
    /// every context built through this library passes.
    pub fn validate_ast(&self) -> (r: Result<(), ValidationError>)
        ensures
            r == self.validation_result(),
            self.wf() ==> r == Ok::<(), ValidationError>(()),
            r is Ok ==> self.stored_fields_ok(),
    {
        match self.validate_root() {
            Ok(()) => {},
            Err(e) => {
                return Err(e);
            },
        }
        match self.validate_source() {
            Ok(()) => {},
            Err(e) => {
                return Err(e);
            },
        }
        let visited = match self.validate_lists() {
            Ok(visited) => visited,
            Err(e) => {
                return Err(e);
            },
        };
        match self.validate_rules(&visited) {
            Ok(()) => {},
            Err(e) => {
                return Err(e);
            },
        }
        let r = self.validate_blocks();
        proof {
            if r is Ok {
                self.lemma_validated_lists();
                self.lemma_validated_declarations_owned();
            }
        }
        r
    }
}

} // verus!
