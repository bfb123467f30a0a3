//! Structural mutations after parsing: inserting a rule after a sibling,
//! retiring a leaf rule, merging adjacent declaration blocks and rewriting
//! declarations in place.

use super::{
    declaration_at, lemma_insert_index, rule_at, same_declaration_side, same_lists_except, same_rule_fields, with_label,
    with_next_in_source, with_next_sibling, with_previous_in_source, with_previous_sibling,
    wrapping_inc, AstContext,
};
use crate::ids::{DeclarationBlockId, RuleId, RuleListId, SourceOrderId};
use crate::records::{
    DeclarationBlockOwner, DeclarationBlockRecord, MutationError, RetiredRule, RuleList, RuleRecord,
    DENSE_CAPACITY,
};
use crate::span::{dummy_sp, spec_dummy_sp};
use vstd::prelude::*;

verus! {

/// The links of rule `x` after a rule `id` is inserted after `after`, before
/// direct sibling `before`, and between `anchor` and `source_next` in source
/// order.
pub open spec fn inserted_links<R>(
    rec: RuleRecord<R>,
    x: int,
    after: RuleId,
    before: Option<RuleId>,
    anchor: RuleId,
    source_next: Option<RuleId>,
    id: RuleId,
) -> RuleRecord<R> {
    let r1 = if x == after.0 { with_next_sibling(rec, Some(id)) } else { rec };
    let r2 = if before == Some(RuleId(x as u32)) { with_previous_sibling(r1, Some(id)) } else { r1 };
    let r3 = if x == anchor.0 { with_next_in_source(r2, Some(id)) } else { r2 };
    if source_next == Some(RuleId(x as u32)) { with_previous_in_source(r3, Some(id)) } else { r3 }
}

impl<R, D> AstContext<R, D> {
    /// What inserting a rule after `after` returns.
    pub open spec fn spec_insert_rule_after_result(old: &Self, after: RuleId) -> Result<RuleId, MutationError> {
        if after.0 >= old.rule_count() {
            Err(MutationError::UnknownRule(after))
        } else if !old.spec_rule(after.0 as int).live {
            Err(MutationError::RetiredRule(after))
        } else if !old.insertion_gap_is_retired(after.0 as int) {
            Err(MutationError::InvalidRuleTopology(after))
        } else if old.rule_count() >= DENSE_CAPACITY {
            Err(MutationError::RuleCapacityExhausted)
        } else {
            Ok(RuleId(old.rule_count() as u32))
        }
    }

    /// `self` is `old` with a new live rule right after `after` in its list,
    /// and right before the first rule after `after`'s subtree in source order.
    pub open spec fn is_rule_insertion_after_of(&self, old: &Self, after: RuleId, payload: R) -> bool {
        let n = old.rule_count();
        let a = after.0 as int;
        let rec = old.spec_rule(a);
        let l = rec.parent_list.0 as int;
        let old_list = old.spec_list(l);
        let id = RuleId(n as u32);
        &&& self.rule_count() == n + 1
        &&& self.source_seq() == old.source_seq().insert(old.insertion_position(a), n as u32)
        &&& self.list_seq(l) == old.list_seq(l).insert(old.list_position(a) + 1, n as u32)
        &&& self.spec_list(l) == (RuleList {
            last: if old_list.last == Some(after) { Some(id) } else { old_list.last },
            live_len: (old_list.live_len + 1) as u32,
            ..old_list
        })
        &&& same_lists_except(self, old, l)
        &&& self.spec_rule(n as int).payload == payload
        &&& self.spec_rule(n as int).parent == rec.parent
        &&& self.spec_rule(n as int).parent_list == rec.parent_list
        &&& self.spec_rule(n as int).child_list is None
        &&& self.spec_rule(n as int).declaration_block is None
        &&& self.spec_rule(n as int).revision == 0
        &&& self.spec_rule(n as int).live
        &&& self.spec_rule_span(n as int) == spec_dummy_sp()
        &&& forall|x: int| 0 <= x < n ==> same_rule_fields(#[trigger] self.spec_rule(x), old.spec_rule(x))
        &&& forall|x: int| 0 <= x < n ==> #[trigger] self.spec_rule_span(x) == old.spec_rule_span(x)
        &&& same_declaration_side(self, old)
    }

    /// Stores a new rule and links it as the direct sibling after `after`.
    ///
    /// In source order the new rule follows `after`'s whole subtree and any
    /// retired rules behind it. Dense identity is independent of source order.
    pub fn insert_rule_after(&mut self, after: RuleId, payload: R) -> (r: Result<RuleId, MutationError>)
        requires
            old(self).wf(),
        ensures
            final(self).wf(),
            r == Self::spec_insert_rule_after_result(old(self), after),
            r is Ok ==> final(self).is_rule_insertion_after_of(old(self), after, payload),
            r is Err ==> *final(self) == *old(self),
    {
        let a = after.0 as usize;
        if a >= self.rules.len() {
            return Err(MutationError::UnknownRule(after));
        }
        if !self.rules[a].live {
            return Err(MutationError::RetiredRule(after));
        }
        let parent = self.rules[a].parent;
        let list = self.rules[a].parent_list;
        let direct_before = self.rules[a].next_sibling;
        let li = list.0 as usize;
        proof {
            reveal(AstContext::wf_lists);
            reveal(AstContext::wf_sizes);
            let s = self.lists@[li as int];
            let j = self.list_pos@[a as int];
            assert(s[j] == a);
            if j + 1 < s.len() {
                assert(s[j + 1] < self.rules@.len());
            }
        }
        if li >= self.rule_lists.len() {
            return Err(MutationError::UnknownRuleList(list));
        }
        if direct_before.is_none() && self.rule_lists[li].last != Some(after) {
            return Err(MutationError::InvalidRuleTopology(after));
        }
        if let Some(before) = direct_before {
            let b = before.0 as usize;
            if b >= self.rules.len() || !self.rules[b].live || self.rules[b].previous_sibling != Some(after)
                || self.rules[b].parent_list != list {
                return Err(MutationError::InvalidRuleTopology(after));
            }
        }
        proof {
            self.lemma_subtree_tail_valid(a as int);
            self.lemma_next_after_subtree_valid(a as int);
        }
        let logical_tail = match self.subtree_tail(after) {
            Some(tail) => tail,
            None => {
                return Err(MutationError::InvalidRuleTopology(after));
            },
        };
        let storage_before = self.next_after_subtree(after);
        if direct_before.is_some() && storage_before != direct_before {
            return Err(MutationError::InvalidRuleTopology(after));
        }
        let anchor = match self.insertion_anchor(after, logical_tail, storage_before) {
            Ok(anchor) => anchor,
            Err(err) => {
                return Err(err);
            },
        };
        if self.rules.len() >= DENSE_CAPACITY {
            return Err(MutationError::RuleCapacityExhausted);
        }
        Ok(self.commit_rule_insertion(after, payload, parent, list, direct_before, anchor, storage_before))
    }

    /// Walks source order from the tail of `after`'s subtree to the rule
    /// after the subtree, over retired rules only; returns the last rule
    /// passed, behind which a rule inserted after `after` goes.
    fn insertion_anchor(&self, after: RuleId, logical_tail: RuleId, storage_before: Option<RuleId>) -> (r: Result<RuleId, MutationError>)
        requires
            self.wf(),
            (after.0 as int) < self.rules@.len(),
            self.rules@[after.0 as int].live,
            self.spec_subtree_tail(after.0 as int) == Some(logical_tail),
            (logical_tail.0 as int) < self.rules@.len(),
            storage_before == self.spec_next_after_subtree(after.0 as int),
            storage_before matches Some(b) ==> (b.0 as int) < self.rules@.len(),
        ensures
            r is Ok <==> self.insertion_gap_is_retired(after.0 as int),
            r is Err ==> r == Err::<RuleId, MutationError>(MutationError::InvalidRuleTopology(after)),
            r matches Ok(anchor) ==> {
                let e = self.insertion_position(after.0 as int);
                &&& 1 <= e <= self.rules@.len()
                &&& anchor == RuleId(self.source_seq()[e - 1])
                &&& storage_before == rule_at(self.source_seq(), e)
            },
    {
        let a = after.0 as usize;
        let ghost n = self.rules@.len();
        let ghost t = self.source_pos@[logical_tail.0 as int];
        let ghost e = self.insertion_position(a as int);
        proof {
            reveal(AstContext::wf_source);
            assert(self.source@[t] == logical_tail.0);
        }
        let mut anchor = logical_tail;
        let ghost mut q: int = t;
        loop
            invariant
                self.wf(),
                                n == self.rules@.len(),
                a == after.0,
                (a as int) < n,
                self.rules@[a as int].live,
                0 <= t <= q < n,
                t == self.subtree_tail_position(a as int),
                e == self.insertion_position(a as int),
                storage_before == self.spec_next_after_subtree(a as int),
                storage_before matches Some(b) ==> (b.0 as int) < n,
                anchor == RuleId(self.source@[q]),
                forall|p: int| t < p <= q ==> !(#[trigger] self.rules@[self.source@[p] as int]).live,
                forall|p: int| t < p <= q ==> rule_at(self.source@, p) != storage_before,
            ensures
                0 <= t <= q < n,
                anchor == RuleId(self.source@[q]),
                e == q + 1,
                storage_before == rule_at(self.source@, q + 1),
                self.insertion_gap_is_retired(a as int),
            decreases n - q,
        {
            proof {
                reveal(AstContext::wf_source);
                assert(self.source@[q] < n);
            }
            let next = self.rules[anchor.0 as usize].next_in_source;
            if next == storage_before {
                proof {
                    if let Some(b) = storage_before {
                        assert(self.source@[q + 1] == b.0);
                        assert(self.source_pos@[b.0 as int] == q + 1);
                    }
                }
                break;
            }
            let next = match next {
                Some(next) => next,
                None => {
                    proof {
                        assert(q + 1 == n);
                        if let Some(b) = storage_before {
                            let pb = self.source_pos@[b.0 as int];
                            assert(self.source@[pb] == b.0);
                            if t < pb {
                                assert(rule_at(self.source@, pb) == storage_before);
                            }
                        }
                        assert(!self.insertion_gap_is_retired(a as int));
                    }
                    return Err(MutationError::InvalidRuleTopology(after));
                },
            };
            proof {
                assert(self.source@[q + 1] == next.0);
                assert(next.0 < n);
            }
            if self.rules[next.0 as usize].live {
                proof {
                    if self.insertion_gap_is_retired(a as int) {
                        if let Some(b) = storage_before {
                            let pb = self.source_pos@[b.0 as int];
                            assert(self.source@[pb] == b.0);
                            assert(rule_at(self.source@, pb) == storage_before);
                            assert(pb != q + 1);
                        }
                        assert(q + 1 < e);
                        assert(!self.rules@[self.source@[q + 1] as int].live);
                        assert(false);
                    }
                }
                return Err(MutationError::InvalidRuleTopology(after));
            }
            anchor = next;
            proof {
                q = q + 1;
            }
        }
        Ok(anchor)
    }

    /// Facts about a well-formed context that committing an insertion after
    /// rule `a` relies on.
    proof fn lemma_insertion_preconditions(&self, a: int, anchor: RuleId, storage_before: Option<RuleId>, e: int)
        requires
            self.wf(),
            0 <= a < self.rules@.len(),
            self.rules@[a].live,
            1 <= e <= self.rules@.len(),
            anchor == RuleId(self.source@[e - 1]),
            storage_before == rule_at(self.source@, e),
        ensures
            ({
                let l = self.rules@[a].parent_list.0 as int;
                let j = self.list_pos@[a];
                &&& 0 <= l < self.rule_lists@.len()
                &&& self.rule_lists@[l].live_len < self.rules@.len() + 1
                &&& self.rules@[a].next_sibling matches Some(b) ==> (b.0 as int) < self.rules@.len()
                &&& 0 <= j < self.lists@[l].len()
                &&& self.lists@[l][j] == a
            }),
            (anchor.0 as int) < self.rules@.len(),
            storage_before matches Some(b) ==> self.source@[e] == b.0 && (b.0 as int) < self.rules@.len(),
            self.rule_spans@.len() == self.rules@.len(),
            self.source@.len() == self.rules@.len(),
            rule_at(self.source@, e - 1) == Some(anchor),
    {
        reveal(AstContext::wf_lists);
        reveal(AstContext::wf_sizes);
        reveal(AstContext::wf_source);
        let l = self.rules@[a].parent_list.0 as int;
        self.lemma_list_len_bounded(l);
        let j = self.list_pos@[a];
        if self.rules@[a].next_sibling is Some {
            assert(self.lists@[l][j + 1] < self.rules@.len());
        }
    }

    /// `self` is `mid` after the store and link updates of inserting a rule
    /// after `after`, at list position `j + 1` and source position `e`.
    #[verifier::opaque]
    closed spec fn is_rule_insert_step(
        &self,
        mid: &Self,
        after: RuleId,
        direct_before: Option<RuleId>,
        anchor: RuleId,
        storage_before: Option<RuleId>,
        e: int,
        j: int,
        label: u64,
    ) -> bool {
        let n = mid.rules@.len();
        let a = after.0 as int;
        let list = mid.rules@[a].parent_list;
        let l = list.0 as int;
        let old_list = mid.rule_lists@[l];
        let id = RuleId(n as u32);
        let nr = self.rules@[n as int];
        &&& self.rules@.len() == n + 1
        &&& nr.source_order_id == SourceOrderId(label)
        &&& nr.parent == mid.rules@[a].parent
        &&& nr.parent_list == list
        &&& nr.previous_sibling == Some(after)
        &&& nr.next_sibling == direct_before
        &&& nr.previous_in_source == Some(anchor)
        &&& nr.next_in_source == storage_before
        &&& nr.child_list is None
        &&& nr.declaration_block is None
        &&& nr.revision == 0
        &&& nr.live
        &&& forall|x: int| 0 <= x < n ==> #[trigger] self.rules@[x]
            == inserted_links(mid.rules@[x], x, after, direct_before, anchor, storage_before, id)
        &&& self.rule_spans@ == mid.rule_spans@.push(spec_dummy_sp())
        &&& self.rule_lists@ == mid.rule_lists@.update(l, RuleList {
            last: if direct_before is None { Some(id) } else { old_list.last },
            live_len: (old_list.live_len + 1) as u32,
            ..old_list
        })
        &&& self.first_rule_in_source == mid.first_rule_in_source
        &&& self.last_rule_in_source == (if storage_before is None { Some(id) } else { mid.last_rule_in_source })
        &&& self.source@ == mid.source@.insert(e, n as u32)
        &&& self.source_pos@ == Seq::new(n + 1, |r: int| if r == n { e } else if mid.source_pos@[r] >= e {
            mid.source_pos@[r] + 1
        } else {
            mid.source_pos@[r]
        })
        &&& self.lists@ == mid.lists@.update(l, mid.lists@[l].insert(j + 1, n as u32))
        &&& self.list_pos@ == Seq::new(n + 1, |r: int| if r == n { j + 1 } else if mid.rules@[r].parent_list == list
            && mid.list_pos@[r] > j {
            mid.list_pos@[r] + 1
        } else {
            mid.list_pos@[r]
        })
        &&& self.stylesheet == mid.stylesheet
        &&& self.license_comments@ == mid.license_comments@
        &&& self.declaration_blocks@ == mid.declaration_blocks@
        &&& self.declarations@ == mid.declarations@
        &&& self.effective_keys@ == mid.effective_keys@
        &&& self.effective_key_ids == mid.effective_key_ids
        &&& self.chains@ == mid.chains@
        &&& self.decl_owner@ == mid.decl_owner@
        &&& self.decl_pos@ == mid.decl_pos@
    }

    /// Shared requirements of the rule insertion step lemmas.
    closed spec fn rule_insert_step_requires(
        mid: Self,
        post: Self,
        after: RuleId,
        direct_before: Option<RuleId>,
        anchor: RuleId,
        storage_before: Option<RuleId>,
        e: int,
        j: int,
        label: u64,
    ) -> bool {
        let n = mid.rules@.len();
        let a = after.0 as int;
        let l = mid.rules@[a].parent_list.0 as int;
        &&& mid.wf()
        &&& n < DENSE_CAPACITY
        &&& 0 <= a < n
        &&& mid.rules@[a].live
        &&& direct_before == mid.rules@[a].next_sibling
        &&& direct_before is Some ==> storage_before == direct_before
        &&& 1 <= e <= n
        &&& anchor == RuleId(mid.source@[e - 1])
        &&& storage_before == rule_at(mid.source@, e)
        &&& mid.rules@[anchor.0 as int].source_order_id.0 < label
        &&& (storage_before matches Some(b) ==> label < mid.rules@[b.0 as int].source_order_id.0)
        &&& j == mid.list_pos@[a]
        &&& post.is_rule_insert_step(&mid, after, direct_before, anchor, storage_before, e, j, label)
    }

    /// A rule insertion step keeps source positions consistent.
    proof fn lemma_rule_insert_source_positions(
        mid: Self,
        post: Self,
        after: RuleId,
        direct_before: Option<RuleId>,
        anchor: RuleId,
        storage_before: Option<RuleId>,
        e: int,
        j: int,
        label: u64,
    )
        requires
            Self::rule_insert_step_requires(mid, post, after, direct_before, anchor, storage_before, e, j, label),
        ensures
            forall|i: int| 0 <= i < mid.rules@.len() + 1 ==> (#[trigger] post.source@[i]) < mid.rules@.len() + 1
                && post.source_pos@[post.source@[i] as int] == i,
            forall|r: int| 0 <= r < mid.rules@.len() + 1 ==> 0 <= #[trigger] post.source_pos@[r] < mid.rules@.len() + 1
                && post.source@[post.source_pos@[r]] == r,
    {
        reveal(AstContext::wf_source);
        reveal(AstContext::wf_sizes);
        reveal(AstContext::is_rule_insert_step);
        let n = mid.rules@.len();
        let s = mid.source@;
        let s2 = post.source@;
        let id = RuleId(n as u32);
        lemma_insert_index(s, e, n as u32);
        assert forall|i: int| 0 <= i < n + 1 implies (#[trigger] s2[i]) < n + 1 && post.source_pos@[s2[i] as int] == i by {
            if i < e {
                assert(s[i] < n);
            } else if i > e {
                assert(s[i - 1] < n);
            }
        }
        assert forall|r: int| 0 <= r < n + 1 implies 0 <= #[trigger] post.source_pos@[r] < n + 1 && s2[post.source_pos@[r]] == r by {
            if r < n {
                assert(s[mid.source_pos@[r]] == r);
            }
        }
    }

    /// A rule insertion step keeps the source links consistent.
    proof fn lemma_rule_insert_source_links(
        mid: Self,
        post: Self,
        after: RuleId,
        direct_before: Option<RuleId>,
        anchor: RuleId,
        storage_before: Option<RuleId>,
        e: int,
        j: int,
        label: u64,
    )
        requires
            Self::rule_insert_step_requires(mid, post, after, direct_before, anchor, storage_before, e, j, label),
        ensures
            forall|i: int| 0 <= i < mid.rules@.len() + 1 ==> {
                &&& (#[trigger] post.rules@[post.source@[i] as int]).previous_in_source == rule_at(post.source@, i - 1)
                &&& post.rules@[post.source@[i] as int].next_in_source == rule_at(post.source@, i + 1)
            },
    {
        reveal(AstContext::wf_source);
        reveal(AstContext::wf_sizes);
        reveal(AstContext::is_rule_insert_step);
        let n = mid.rules@.len();
        let s = mid.source@;
        let s2 = post.source@;
        let id = RuleId(n as u32);
        lemma_insert_index(s, e, n as u32);
        assert forall|i: int| 0 <= i < n + 1 implies {
            &&& (#[trigger] post.rules@[s2[i] as int]).previous_in_source == rule_at(s2, i - 1)
            &&& post.rules@[s2[i] as int].next_in_source == rule_at(s2, i + 1)
        } by {
            if i < e {
                let x = s[i] as int;
                assert(x < n);
                if storage_before is Some {
                    assert(s[e] != s[i]);
                }
                if i + 1 < e {
                    assert(mid.source_pos@[s[i] as int] == i);
                    assert(mid.source_pos@[s[e - 1] as int] == e - 1);
                    assert(s[i] != s[e - 1]);
                }
            } else if i > e {
                let x = s[i - 1] as int;
                assert(x < n);
                assert(s[i - 1] != s[e - 1]);
            }
        }
    }

    /// A rule insertion step keeps source labels increasing.
    proof fn lemma_rule_insert_source_labels(
        mid: Self,
        post: Self,
        after: RuleId,
        direct_before: Option<RuleId>,
        anchor: RuleId,
        storage_before: Option<RuleId>,
        e: int,
        j: int,
        label: u64,
    )
        requires
            Self::rule_insert_step_requires(mid, post, after, direct_before, anchor, storage_before, e, j, label),
        ensures
            forall|i: int, k: int| 0 <= i < k < mid.rules@.len() + 1 ==>
                (#[trigger] post.rules@[post.source@[i] as int]).source_order_id.0
                    < (#[trigger] post.rules@[post.source@[k] as int]).source_order_id.0,
    {
        reveal(AstContext::wf_source);
        reveal(AstContext::wf_sizes);
        reveal(AstContext::is_rule_insert_step);
        let n = mid.rules@.len();
        let s = mid.source@;
        let s2 = post.source@;
        let id = RuleId(n as u32);
        lemma_insert_index(s, e, n as u32);
        assert forall|i: int, k: int| 0 <= i < k < n + 1 implies
            (#[trigger] post.rules@[s2[i] as int]).source_order_id.0 < (#[trigger] post.rules@[s2[k] as int]).source_order_id.0 by {
            if i == e {
                let y = s[k - 1];
                assert(y < n);
                if k - 1 > e {
                    assert(mid.rules@[s[e] as int].source_order_id.0 < mid.rules@[y as int].source_order_id.0);
                }
            } else if k == e {
                assert(s[i] < n);
                if i < e - 1 {
                    assert(mid.rules@[s[i] as int].source_order_id.0 < mid.rules@[s[e - 1] as int].source_order_id.0);
                }
            } else {
                let x = if i < e { s[i] } else { s[i - 1] };
                let y = if k < e { s[k] } else { s[k - 1] };
                assert(x < n && y < n);
                if i < e && k < e {
                    assert(mid.rules@[s[i] as int].source_order_id.0 < mid.rules@[s[k] as int].source_order_id.0);
                } else if i < e {
                    assert(mid.rules@[s[i] as int].source_order_id.0 < mid.rules@[s[k - 1] as int].source_order_id.0);
                } else {
                    assert(mid.rules@[s[i - 1] as int].source_order_id.0 < mid.rules@[s[k - 1] as int].source_order_id.0);
                }
            }
        }
    }

    /// A rule insertion step keeps the source chain well formed.
    proof fn lemma_rule_insert_source(
        mid: Self,
        post: Self,
        after: RuleId,
        direct_before: Option<RuleId>,
        anchor: RuleId,
        storage_before: Option<RuleId>,
        e: int,
        j: int,
        label: u64,
    )
        requires
            Self::rule_insert_step_requires(mid, post, after, direct_before, anchor, storage_before, e, j, label),
        ensures
            post.wf_source(),
    {
        Self::lemma_rule_insert_source_positions(mid, post, after, direct_before, anchor, storage_before, e, j, label);
        Self::lemma_rule_insert_source_links(mid, post, after, direct_before, anchor, storage_before, e, j, label);
        Self::lemma_rule_insert_source_labels(mid, post, after, direct_before, anchor, storage_before, e, j, label);
        reveal(AstContext::wf_source);
        reveal(AstContext::wf_sizes);
        reveal(AstContext::is_rule_insert_step);
        let n = mid.rules@.len();
        lemma_insert_index(mid.source@, e, n as u32);
    }

    /// A rule insertion step keeps list lengths and endpoints consistent.
    proof fn lemma_rule_insert_list_records(
        mid: Self,
        post: Self,
        after: RuleId,
        direct_before: Option<RuleId>,
        anchor: RuleId,
        storage_before: Option<RuleId>,
        e: int,
        j: int,
        label: u64,
    )
        requires
            Self::rule_insert_step_requires(mid, post, after, direct_before, anchor, storage_before, e, j, label),
        ensures
            forall|m: int| 0 <= m < post.rule_lists@.len() ==> {
                let q = #[trigger] post.lists@[m];
                &&& q.len() == post.rule_lists@[m].live_len
                &&& post.rule_lists@[m].first == rule_at(q, 0)
                &&& post.rule_lists@[m].last == rule_at(q, q.len() - 1)
            },
    {
        reveal(AstContext::wf_lists);
        reveal(AstContext::wf_sizes);
        reveal(AstContext::is_rule_insert_step);
        let n = mid.rules@.len();
        let a = after.0 as int;
        let list = mid.rules@[a].parent_list;
        let l = list.0 as int;
        let nl = mid.rule_lists@.len();
        let ls = mid.lists@[l];
        let id = RuleId(n as u32);
        mid.lemma_list_len_bounded(l);
        assert(ls[j] == a);
        if direct_before is Some {
            assert(ls[j + 1] < n);
        }
        lemma_insert_index(ls, j + 1, n as u32);
        assert forall|m: int| 0 <= m < nl implies {
            let q = #[trigger] post.lists@[m];
            &&& q.len() == post.rule_lists@[m].live_len
            &&& post.rule_lists@[m].first == rule_at(q, 0)
            &&& post.rule_lists@[m].last == rule_at(q, q.len() - 1)
        } by {
            if m != l {
                assert(post.lists@[m] == mid.lists@[m]);
                assert(post.rule_lists@[m] == mid.rule_lists@[m]);
            }
        }
    }

    /// A rule insertion step keeps list members and sibling links consistent.
    proof fn lemma_rule_insert_list_members(
        mid: Self,
        post: Self,
        after: RuleId,
        direct_before: Option<RuleId>,
        anchor: RuleId,
        storage_before: Option<RuleId>,
        e: int,
        j: int,
        label: u64,
    )
        requires
            Self::rule_insert_step_requires(mid, post, after, direct_before, anchor, storage_before, e, j, label),
        ensures
            forall|m: int, i: int| 0 <= m < post.rule_lists@.len() && 0 <= i < post.lists@[m].len() ==> {
                let r = #[trigger] post.lists@[m][i];
                &&& r < post.rules@.len()
                &&& post.rules@[r as int].live
                &&& post.rules@[r as int].parent_list == RuleListId(m as u32)
                &&& post.list_pos@[r as int] == i
                &&& post.rules@[r as int].previous_sibling == rule_at(post.lists@[m], i - 1)
                &&& post.rules@[r as int].next_sibling == rule_at(post.lists@[m], i + 1)
            },
    {
        reveal(AstContext::wf_lists);
        reveal(AstContext::wf_sizes);
        reveal(AstContext::is_rule_insert_step);
        let n = mid.rules@.len();
        let a = after.0 as int;
        let list = mid.rules@[a].parent_list;
        let l = list.0 as int;
        let nl = mid.rule_lists@.len();
        let ls = mid.lists@[l];
        let id = RuleId(n as u32);
        mid.lemma_list_len_bounded(l);
        assert(ls[j] == a);
        if direct_before is Some {
            assert(ls[j + 1] < n);
        }
        lemma_insert_index(ls, j + 1, n as u32);
        assert forall|m: int, i: int| 0 <= m < nl && 0 <= i < post.lists@[m].len() implies {
            let r = #[trigger] post.lists@[m][i];
            &&& r < n + 1
            &&& post.rules@[r as int].live
            &&& post.rules@[r as int].parent_list == RuleListId(m as u32)
            &&& post.list_pos@[r as int] == i
            &&& post.rules@[r as int].previous_sibling == rule_at(post.lists@[m], i - 1)
            &&& post.rules@[r as int].next_sibling == rule_at(post.lists@[m], i + 1)
        } by {
            if m != l {
                let r = mid.lists@[m][i];
                assert(post.lists@[m] == mid.lists@[m]);
                assert(r < n);
                assert(mid.rules@[r as int].parent_list == RuleListId(m as u32));
                assert(r != a);
                if direct_before == Some(RuleId(r)) {
                    assert(ls[j + 1] == r);
                    assert(false);
                }
            } else if i < j + 1 {
                let r = ls[i];
                assert(r < n);
                assert(mid.list_pos@[r as int] == i);
                if direct_before is Some {
                    assert(mid.list_pos@[ls[j + 1] as int] == j + 1);
                    assert(r != ls[j + 1]);
                }
                if i < j {
                    assert(r != a);
                }
            } else if i > j + 1 {
                let r = ls[i - 1];
                assert(r < n);
                assert(mid.list_pos@[r as int] == i - 1);
                assert(r != a);
            }
        }
    }

    /// A rule insertion step keeps every rule in its list.
    proof fn lemma_rule_insert_list_owners(
        mid: Self,
        post: Self,
        after: RuleId,
        direct_before: Option<RuleId>,
        anchor: RuleId,
        storage_before: Option<RuleId>,
        e: int,
        j: int,
        label: u64,
    )
        requires
            Self::rule_insert_step_requires(mid, post, after, direct_before, anchor, storage_before, e, j, label),
        ensures
            forall|r: int| 0 <= r < post.rules@.len() ==> {
                let rec = #[trigger] post.rules@[r];
                &&& (rec.parent_list.0 as int) < post.rule_lists@.len()
                &&& rec.parent == post.rule_lists@[rec.parent_list.0 as int].parent
                &&& (rec.live ==> 0 <= post.list_pos@[r] < post.lists@[rec.parent_list.0 as int].len()
                    && post.lists@[rec.parent_list.0 as int][post.list_pos@[r]] == r)
                &&& (!rec.live ==> rec.previous_sibling is None && rec.next_sibling is None)
            },
    {
        reveal(AstContext::wf_lists);
        reveal(AstContext::wf_sizes);
        reveal(AstContext::is_rule_insert_step);
        let n = mid.rules@.len();
        let a = after.0 as int;
        let list = mid.rules@[a].parent_list;
        let l = list.0 as int;
        let nl = mid.rule_lists@.len();
        let ls = mid.lists@[l];
        let id = RuleId(n as u32);
        mid.lemma_list_len_bounded(l);
        assert(ls[j] == a);
        if direct_before is Some {
            assert(ls[j + 1] < n);
        }
        lemma_insert_index(ls, j + 1, n as u32);
        assert forall|r: int| 0 <= r < n + 1 implies {
            let rec = #[trigger] post.rules@[r];
            &&& (rec.parent_list.0 as int) < nl
            &&& rec.parent == post.rule_lists@[rec.parent_list.0 as int].parent
            &&& (rec.live ==> 0 <= post.list_pos@[r] < post.lists@[rec.parent_list.0 as int].len()
                && post.lists@[rec.parent_list.0 as int][post.list_pos@[r]] == r)
            &&& (!rec.live ==> rec.previous_sibling is None && rec.next_sibling is None)
        } by {
            if r < n {
                let pl = mid.rules@[r].parent_list.0 as int;
                if mid.rules@[r].live && pl == l {
                    let p = mid.list_pos@[r];
                    assert(ls[p] == r);
                }
                if direct_before == Some(RuleId(r as u32)) {
                    assert(mid.rules@[ls[j + 1] as int].live);
                }
            }
        }
    }

    /// A rule insertion step keeps the rule lists well formed.
    proof fn lemma_rule_insert_lists(
        mid: Self,
        post: Self,
        after: RuleId,
        direct_before: Option<RuleId>,
        anchor: RuleId,
        storage_before: Option<RuleId>,
        e: int,
        j: int,
        label: u64,
    )
        requires
            Self::rule_insert_step_requires(mid, post, after, direct_before, anchor, storage_before, e, j, label),
        ensures
            post.wf_lists(),
    {
        Self::lemma_rule_insert_list_records(mid, post, after, direct_before, anchor, storage_before, e, j, label);
        Self::lemma_rule_insert_list_members(mid, post, after, direct_before, anchor, storage_before, e, j, label);
        Self::lemma_rule_insert_list_owners(mid, post, after, direct_before, anchor, storage_before, e, j, label);
        reveal(AstContext::wf_lists);
        reveal(AstContext::is_rule_insert_step);
    }

    /// The plain store updates of a rule insertion step.
    proof fn lemma_rule_insert_step_facts(
        mid: Self,
        post: Self,
        after: RuleId,
        direct_before: Option<RuleId>,
        anchor: RuleId,
        storage_before: Option<RuleId>,
        e: int,
        j: int,
        label: u64,
    )
        requires
            Self::rule_insert_step_requires(mid, post, after, direct_before, anchor, storage_before, e, j, label),
        ensures
            ({
                let n = mid.rules@.len();
                let a = after.0 as int;
                let list = mid.rules@[a].parent_list;
                let l = list.0 as int;
                let old_list = mid.rule_lists@[l];
                let id = RuleId(n as u32);
                let nr = post.rules@[n as int];
                &&& post.rules@.len() == n + 1
                &&& nr.source_order_id == SourceOrderId(label)
                &&& nr.parent == mid.rules@[a].parent
                &&& nr.parent_list == list
                &&& nr.child_list is None
                &&& nr.declaration_block is None
                &&& nr.revision == 0
                &&& nr.live
                &&& forall|x: int| 0 <= x < n ==> #[trigger] post.rules@[x]
                    == inserted_links(mid.rules@[x], x, after, direct_before, anchor, storage_before, id)
                &&& post.rule_spans@ == mid.rule_spans@.push(spec_dummy_sp())
                &&& post.rule_lists@ == mid.rule_lists@.update(l, RuleList {
                    last: if direct_before is None { Some(id) } else { old_list.last },
                    live_len: (old_list.live_len + 1) as u32,
                    ..old_list
                })
                &&& post.source@ == mid.source@.insert(e, n as u32)
                &&& post.lists@ == mid.lists@.update(l, mid.lists@[l].insert(j + 1, n as u32))
                &&& post.stylesheet == mid.stylesheet
                &&& post.license_comments@ == mid.license_comments@
                &&& post.declaration_blocks@ == mid.declaration_blocks@
                &&& post.declarations@ == mid.declarations@
                &&& post.effective_keys@ == mid.effective_keys@
                &&& post.effective_key_ids == mid.effective_key_ids
                &&& post.chains@ == mid.chains@
                &&& post.decl_owner@ == mid.decl_owner@
                &&& post.decl_pos@ == mid.decl_pos@
            }),
    {
        reveal(AstContext::is_rule_insert_step);
    }

    /// A rule insertion step keeps the tree well formed.
    proof fn lemma_rule_insert_tree(
        pre: Self,
        mid: Self,
        post: Self,
        after: RuleId,
        direct_before: Option<RuleId>,
        anchor: RuleId,
        storage_before: Option<RuleId>,
        e: int,
        j: int,
        label: u64,
        payload: R,
    )
        requires
            pre.wf(),
            mid.same_except_labels(&pre),
            Self::rule_insert_step_requires(mid, post, after, direct_before, anchor, storage_before, e, j, label),
            e == pre.insertion_position(after.0 as int),
            j == pre.list_position(after.0 as int),
            post.rules@[mid.rules@.len() as int].payload == payload,
        ensures
            post.wf_tree(),
    {
        let n = mid.rules@.len();
        let a = after.0 as int;
        let list = mid.rules@[a].parent_list;
        let l = list.0 as int;
        let ls = mid.lists@[l];
        let id = RuleId(n as u32);
        Self::lemma_rule_insert_step_facts(mid, post, after, direct_before, anchor, storage_before, e, j, label);
        assert(l < mid.rule_lists@.len()) by {
            reveal(AstContext::wf_lists);
        }
        assert(post.wf_tree()) by {
            reveal(AstContext::wf_tree);
            reveal(AstContext::wf_sizes);
            assert forall|m: int| 0 <= m < post.rule_lists@.len() implies match (#[trigger] post.rule_lists@[m]).parent {
                Some(p) => (p.0 as int) < post.rules@.len() && post.rules@[p.0 as int].live
                    && post.rules@[p.0 as int].child_list == Some(RuleListId(m as u32)),
                None => true,
            } by {
                assert(post.rule_lists@[m].parent == mid.rule_lists@[m].parent);
            }
            assert forall|r: int| 0 <= r < n + 1 implies {
                let rec = #[trigger] post.rules@[r];
                &&& (rec.child_list matches Some(c) ==> (c.0 as int) < post.rule_lists@.len()
                    && post.rule_lists@[c.0 as int].parent == Some(RuleId(r as u32)))
                &&& (rec.parent matches Some(p) ==> (p.0 as int) < r)
            } by {
                if r < n {
                    if let Some(c) = mid.rules@[r].child_list {
                        assert(post.rule_lists@[c.0 as int].parent == mid.rule_lists@[c.0 as int].parent);
                    }
                } else {
                    assert(mid.rules@[a].parent matches Some(p) ==> (p.0 as int) < a);
                }
            }
        }
    }

    /// Under a rule insertion step, every old rule keeps its fields and span.
    proof fn lemma_rule_insert_contract_rules(
        pre: Self,
        mid: Self,
        post: Self,
        after: RuleId,
        direct_before: Option<RuleId>,
        anchor: RuleId,
        storage_before: Option<RuleId>,
        e: int,
        j: int,
        label: u64,
        payload: R,
    )
        requires
            pre.wf(),
            mid.same_except_labels(&pre),
            Self::rule_insert_step_requires(mid, post, after, direct_before, anchor, storage_before, e, j, label),
            e == pre.insertion_position(after.0 as int),
            j == pre.list_position(after.0 as int),
            post.rules@[mid.rules@.len() as int].payload == payload,
        ensures
            post.rule_count() == pre.rule_count() + 1,
            forall|x: int| 0 <= x < pre.rule_count() ==> same_rule_fields(#[trigger] post.spec_rule(x), pre.spec_rule(x)),
            forall|x: int| 0 <= x < pre.rule_count() ==> #[trigger] post.spec_rule_span(x) == pre.spec_rule_span(x),
            post.spec_rule_span(pre.rule_count() as int) == spec_dummy_sp(),
    {
        let n = mid.rules@.len();
        let a = after.0 as int;
        let list = mid.rules@[a].parent_list;
        let l = list.0 as int;
        let ls = mid.lists@[l];
        let id = RuleId(n as u32);
        Self::lemma_rule_insert_step_facts(mid, post, after, direct_before, anchor, storage_before, e, j, label);
        assert(mid.rule_spans@.len() == n) by {
            reveal(AstContext::wf_sizes);
        }
        assert forall|x: int| 0 <= x < n implies same_rule_fields(#[trigger] post.spec_rule(x), pre.spec_rule(x)) by {
            assert(mid.rules@[x] == with_label(pre.rules@[x], mid.rules@[x].source_order_id.0));
        }
        assert forall|x: int| 0 <= x < n implies #[trigger] post.spec_rule_span(x) == pre.spec_rule_span(x) by {
            assert(post.rule_spans@[x] == mid.rule_spans@[x]);
        }
    }

    /// Under a rule insertion step, the list of `after` gains the new rule
    /// right after `after`, and source order gains it at `e`.
    proof fn lemma_rule_insert_contract_lists(
        pre: Self,
        mid: Self,
        post: Self,
        after: RuleId,
        direct_before: Option<RuleId>,
        anchor: RuleId,
        storage_before: Option<RuleId>,
        e: int,
        j: int,
        label: u64,
        payload: R,
    )
        requires
            pre.wf(),
            mid.same_except_labels(&pre),
            Self::rule_insert_step_requires(mid, post, after, direct_before, anchor, storage_before, e, j, label),
            e == pre.insertion_position(after.0 as int),
            j == pre.list_position(after.0 as int),
            post.rules@[mid.rules@.len() as int].payload == payload,
        ensures
            ({
                let n = pre.rule_count();
                let a = after.0 as int;
                let rec = pre.spec_rule(a);
                let l = rec.parent_list.0 as int;
                let old_list = pre.spec_list(l);
                &&& post.source_seq() == pre.source_seq().insert(pre.insertion_position(a), n as u32)
                &&& post.list_seq(l) == pre.list_seq(l).insert(pre.list_position(a) + 1, n as u32)
                &&& post.spec_list(l) == (RuleList {
                    last: if old_list.last == Some(after) { Some(RuleId(n as u32)) } else { old_list.last },
                    live_len: (old_list.live_len + 1) as u32,
                    ..old_list
                })
                &&& same_lists_except(&post, &pre, l)
                &&& same_declaration_side(&post, &pre)
            }),
    {
        let n = mid.rules@.len();
        let a = after.0 as int;
        let list = mid.rules@[a].parent_list;
        let l = list.0 as int;
        let ls = mid.lists@[l];
        let id = RuleId(n as u32);
        Self::lemma_rule_insert_step_facts(mid, post, after, direct_before, anchor, storage_before, e, j, label);
        assert(mid.lists@.len() == mid.rule_lists@.len() && mid.chains@.len() == mid.declaration_blocks@.len()
            && ls[j] == a && mid.rules@[a].next_sibling == rule_at(ls, j + 1)
            && mid.rule_lists@[l].last == rule_at(ls, ls.len() - 1) && 0 <= j < ls.len()
            && l < mid.rule_lists@.len()) by {
            reveal(AstContext::wf_lists);
            reveal(AstContext::wf_blocks);
        }
        assert(RuleId(a as u32) == after);
        if direct_before is Some {
            assert(ls[ls.len() - 1] != a) by {
                reveal(AstContext::wf_lists);
                assert(mid.list_pos@[ls[ls.len() - 1] as int] == ls.len() - 1);
            }
        }
    }

    /// A rule insertion step inserts exactly one rule after `after`.
    proof fn lemma_rule_insert_contract(
        pre: Self,
        mid: Self,
        post: Self,
        after: RuleId,
        direct_before: Option<RuleId>,
        anchor: RuleId,
        storage_before: Option<RuleId>,
        e: int,
        j: int,
        label: u64,
        payload: R,
    )
        requires
            pre.wf(),
            mid.same_except_labels(&pre),
            Self::rule_insert_step_requires(mid, post, after, direct_before, anchor, storage_before, e, j, label),
            e == pre.insertion_position(after.0 as int),
            j == pre.list_position(after.0 as int),
            post.rules@[mid.rules@.len() as int].payload == payload,
        ensures
            post.is_rule_insertion_after_of(&pre, after, payload),
    {
        Self::lemma_rule_insert_contract_rules(pre, mid, post, after, direct_before, anchor, storage_before, e, j, label, payload);
        Self::lemma_rule_insert_contract_lists(pre, mid, post, after, direct_before, anchor, storage_before, e, j, label, payload);
        Self::lemma_rule_insert_step_facts(mid, post, after, direct_before, anchor, storage_before, e, j, label);
    }

    /// A rule insertion step keeps the context well formed and inserts
    /// exactly one rule after `after`.
    proof fn lemma_rule_insert_step(
        pre: Self,
        mid: Self,
        post: Self,
        after: RuleId,
        direct_before: Option<RuleId>,
        anchor: RuleId,
        storage_before: Option<RuleId>,
        e: int,
        j: int,
        label: u64,
        payload: R,
    )
        requires
            pre.wf(),
            mid.same_except_labels(&pre),
            Self::rule_insert_step_requires(mid, post, after, direct_before, anchor, storage_before, e, j, label),
            e == pre.insertion_position(after.0 as int),
            j == pre.list_position(after.0 as int),
            post.rules@[mid.rules@.len() as int].payload == payload,
        ensures
            post.wf(),
            post.is_rule_insertion_after_of(&pre, after, payload),
    {
        let n = mid.rules@.len();
        let a = after.0 as int;
        let list = mid.rules@[a].parent_list;
        let l = list.0 as int;
        let ls = mid.lists@[l];
        let id = RuleId(n as u32);
        Self::lemma_rule_insert_step_facts(mid, post, after, direct_before, anchor, storage_before, e, j, label);
        assert(post.wf_source()) by {
            Self::lemma_rule_insert_source(mid, post, after, direct_before, anchor, storage_before, e, j, label);
        }
        assert(post.wf_lists()) by {
            Self::lemma_rule_insert_lists(mid, post, after, direct_before, anchor, storage_before, e, j, label);
        }
        assert(post.wf_keys()) by {
            Self::lemma_frame_keys(mid, post);
        }
        assert(post.wf_blocks()) by {
            Self::lemma_frame_blocks_grow(mid, post);
        }
        assert(l < mid.rule_lists@.len()) by {
            reveal(AstContext::wf_lists);
        }
        assert(post.wf_sizes()) by {
            reveal(AstContext::wf_sizes);
        }
        Self::lemma_rule_insert_tree(pre, mid, post, after, direct_before, anchor, storage_before, e, j, label, payload);
        Self::lemma_rule_insert_contract(pre, mid, post, after, direct_before, anchor, storage_before, e, j, label, payload);

    }

    /// Stores the new rule of an insertion whose checks all passed, links it
    /// after `after` and between `anchor` and `storage_before` in source order.
    fn commit_rule_insertion(
        &mut self,
        after: RuleId,
        payload: R,
        parent: Option<RuleId>,
        list: RuleListId,
        direct_before: Option<RuleId>,
        anchor: RuleId,
        storage_before: Option<RuleId>,
    ) -> (r: RuleId)
        requires
            old(self).wf(),
            old(self).rules@.len() < DENSE_CAPACITY,
            (after.0 as int) < old(self).rules@.len(),
            old(self).rules@[after.0 as int].live,
            parent == old(self).rules@[after.0 as int].parent,
            list == old(self).rules@[after.0 as int].parent_list,
            direct_before == old(self).rules@[after.0 as int].next_sibling,
            storage_before == old(self).spec_next_after_subtree(after.0 as int),
            direct_before is Some ==> storage_before == direct_before,
            old(self).insertion_gap_is_retired(after.0 as int),
            ({
                let e = old(self).insertion_position(after.0 as int);
                &&& 1 <= e <= old(self).rules@.len()
                &&& anchor == RuleId(old(self).source@[e - 1])
                &&& storage_before == rule_at(old(self).source@, e)
            }),
        ensures
            final(self).wf(),
            r == RuleId(old(self).rules@.len() as u32),
            final(self).is_rule_insertion_after_of(old(self), after, payload),
    {
        let a = after.0 as usize;
        let li = list.0 as usize;
        let ghost n = self.rules@.len();
        let ghost e = self.insertion_position(a as int);
        let ghost pre = *self;
        let ghost j = self.list_pos@[a as int];
        proof {
            self.lemma_insertion_preconditions(a as int, anchor, storage_before, e);
        }
        let source_order_id = match self.source_order_id_between(Some(anchor), storage_before, Ghost(e)) {
            Ok(v) => v,
            Err(_) => {
                proof {
                    assert(false);
                }
                SourceOrderId(0)
            },
        };
        let ghost mid = *self;
        let id = RuleId(self.rules.len() as u32);
        self.rules.push(RuleRecord {
            payload,
            source_order_id,
            parent,
            parent_list: list,
            previous_sibling: Some(after),
            next_sibling: direct_before,
            previous_in_source: Some(anchor),
            next_in_source: storage_before,
            child_list: None,
            declaration_block: None,
            revision: 0,
            live: true,
        });
        self.rule_spans.push(dummy_sp());
        self.rules[a].next_sibling = Some(id);
        let mut list_record = self.rule_lists[li];
        match direct_before {
            Some(before) => {
                self.rules[before.0 as usize].previous_sibling = Some(id);
            },
            None => {
                list_record.last = Some(id);
            },
        }
        list_record.live_len = list_record.live_len + 1;
        self.rule_lists.set(li, list_record);
        self.rules[anchor.0 as usize].next_in_source = Some(id);
        match storage_before {
            Some(before) => {
                self.rules[before.0 as usize].previous_in_source = Some(id);
            },
            None => {
                self.last_rule_in_source = Some(id);
            },
        }
        proof {
            let l = li as int;
            let rules_before = mid.rules@;
            self.source@ = mid.source@.insert(e, n as u32);
            self.source_pos@ = Seq::new(n + 1, |r: int| if r == n { e } else if mid.source_pos@[r] >= e {
                mid.source_pos@[r] + 1
            } else {
                mid.source_pos@[r]
            });
            self.lists@ = mid.lists@.update(l, mid.lists@[l].insert(j + 1, n as u32));
            self.list_pos@ = Seq::new(n + 1, |r: int| if r == n { j + 1 } else if rules_before[r].parent_list == list
                && mid.list_pos@[r] > j {
                mid.list_pos@[r] + 1
            } else {
                mid.list_pos@[r]
            });
        }
        proof {
            assert forall|x: int| 0 <= x < n implies #[trigger] self.rules@[x]
                == inserted_links(mid.rules@[x], x, after, direct_before, anchor, storage_before, id) by {}
            assert(self.rule_spans@ =~= mid.rule_spans@.push(spec_dummy_sp()));
            assert(self.is_rule_insert_step(&mid, after, direct_before, anchor, storage_before, e, j, source_order_id.0)) by {
                reveal(AstContext::is_rule_insert_step);
            }
            Self::lemma_rule_insert_step(pre, mid, *self, after, direct_before, anchor, storage_before, e, j,
                source_order_id.0, payload);
        }
        id
    }
}

} // verus!

verus! {

/// `rec` after it leaves its list: no sibling links, retired, one revision on.
pub open spec fn retired_record<R>(rec: RuleRecord<R>) -> RuleRecord<R> {
    RuleRecord {
        previous_sibling: None,
        next_sibling: None,
        live: false,
        revision: wrapping_inc(rec.revision),
        ..rec
    }
}

/// `rec` retired with one revision on.
pub open spec fn retired_block(rec: DeclarationBlockRecord) -> DeclarationBlockRecord {
    DeclarationBlockRecord { live: false, revision: wrapping_inc(rec.revision), ..rec }
}

/// The sibling links of rule `y` after rule `id` leaves the list between
/// `previous` and `next`.
pub open spec fn unlinked_siblings<R>(rec: RuleRecord<R>, y: int, previous: Option<RuleId>, next: Option<RuleId>) -> RuleRecord<R> {
    let r1 = if previous == Some(RuleId(y as u32)) { with_next_sibling(rec, next) } else { rec };
    if next == Some(RuleId(y as u32)) { with_previous_sibling(r1, previous) } else { r1 }
}

impl<R, D> AstContext<R, D> {
    /// What retiring rule `id` returns.
    pub open spec fn spec_retire_rule_result(old: &Self, id: RuleId) -> Result<RetiredRule, MutationError> {
        let rec = old.spec_rule(id.0 as int);
        if id.0 >= old.rule_count() {
            Err(MutationError::UnknownRule(id))
        } else if !rec.live {
            Err(MutationError::RetiredRule(id))
        } else if rec.child_list is Some {
            Err(MutationError::RuleHasChildren(id))
        } else {
            Ok(RetiredRule {
                id,
                list: rec.parent_list,
                previous: rec.previous_sibling,
                next: rec.next_sibling,
                declaration_block: rec.declaration_block,
            })
        }
    }

    /// `self` is `old` with leaf rule `id` unlinked from its list and
    /// retired, together with its declaration block; the rule keeps its place
    /// in source order and the block keeps its chain.
    pub open spec fn is_rule_retirement_of(&self, old: &Self, id: RuleId) -> bool {
        let x = id.0 as int;
        let rec = old.spec_rule(x);
        let l = rec.parent_list.0 as int;
        let old_list = old.spec_list(l);
        &&& self.rule_count() == old.rule_count()
        &&& self.spec_rule(x) == retired_record(rec)
        &&& forall|y: int| 0 <= y < old.rule_count() && y != x ==> #[trigger] self.spec_rule(y)
            == unlinked_siblings(old.spec_rule(y), y, rec.previous_sibling, rec.next_sibling)
        &&& forall|y: int| 0 <= y < old.rule_count() ==> #[trigger] self.spec_rule_span(y) == old.spec_rule_span(y)
        &&& self.source_seq() == old.source_seq()
        &&& self.list_seq(l) == old.list_seq(l).remove(old.list_position(x))
        &&& self.spec_list(l) == (RuleList {
            first: if old_list.first == Some(id) { rec.next_sibling } else { old_list.first },
            last: if old_list.last == Some(id) { rec.previous_sibling } else { old_list.last },
            live_len: (old_list.live_len - 1) as u32,
            parent: old_list.parent,
        })
        &&& same_lists_except(self, old, l)
        &&& self.block_count() == old.block_count()
        &&& forall|b: int| 0 <= b < old.block_count() ==> #[trigger] self.chain(b) == old.chain(b)
        &&& forall|b: int| 0 <= b < old.block_count() ==> #[trigger] self.spec_block(b) == (
            if rec.declaration_block == Some(DeclarationBlockId(b as u32)) {
                retired_block(old.spec_block(b))
            } else {
                old.spec_block(b)
            })
        &&& self.declaration_count() == old.declaration_count()
        &&& forall|d: int| 0 <= d < old.declaration_count() ==> #[trigger] self.spec_declaration(d) == old.spec_declaration(d)
        &&& self.key_count() == old.key_count()
        &&& forall|k: int| 0 <= k < old.key_count() ==> #[trigger] self.spec_key(k) == old.spec_key(k)
        &&& self.spec_stylesheet() == old.spec_stylesheet()
        &&& self.spec_license_comments() == old.spec_license_comments()
    }

    /// Unlinks one live leaf rule from its list while it keeps its place in
    /// source order.
    ///
    /// Identities are never reused. The rule's declaration block is retired
    /// in the same transaction and keeps its declaration chain.
    pub fn retire_rule(&mut self, id: RuleId) -> (r: Result<RetiredRule, MutationError>)
        requires
            old(self).wf(),
        ensures
            final(self).wf(),
            r == Self::spec_retire_rule_result(old(self), id),
            r is Ok ==> final(self).is_rule_retirement_of(old(self), id),
            r is Err ==> *final(self) == *old(self),
    {
        let x = id.0 as usize;
        if x >= self.rules.len() {
            return Err(MutationError::UnknownRule(id));
        }
        if !self.rules[x].live {
            return Err(MutationError::RetiredRule(id));
        }
        if self.rules[x].child_list.is_some() {
            return Err(MutationError::RuleHasChildren(id));
        }
        let list = self.rules[x].parent_list;
        let previous = self.rules[x].previous_sibling;
        let next = self.rules[x].next_sibling;
        let declaration_block = self.rules[x].declaration_block;
        proof {
            self.lemma_retire_preconditions(x as int);
        }
        let li = list.0 as usize;
        if li >= self.rule_lists.len() {
            return Err(MutationError::UnknownRuleList(list));
        }
        let list_record = self.rule_lists[li];
        if list_record.live_len == 0 || previous.is_none() && list_record.first != Some(id)
            || next.is_none() && list_record.last != Some(id) {
            return Err(MutationError::InvalidRuleTopology(id));
        }
        if let Some(p) = previous {
            if p.0 as usize >= self.rules.len() || self.rules[p.0 as usize].next_sibling != Some(id)
                || !self.rules[p.0 as usize].live {
                return Err(MutationError::InvalidRuleTopology(id));
            }
        }
        if let Some(q) = next {
            if q.0 as usize >= self.rules.len() || self.rules[q.0 as usize].previous_sibling != Some(id)
                || !self.rules[q.0 as usize].live {
                return Err(MutationError::InvalidRuleTopology(id));
            }
        }
        if let Some(b) = declaration_block {
            if b.0 as usize >= self.declaration_blocks.len() || !self.declaration_blocks[b.0 as usize].live
                || self.declaration_blocks[b.0 as usize].owner != DeclarationBlockOwner::Rule(id) {
                return Err(MutationError::InvalidRuleTopology(id));
            }
        }
        let ghost pre = *self;
        let ghost i = self.list_pos@[x as int];
        let mut updated_list = list_record;
        match previous {
            Some(p) => {
                self.rules[p.0 as usize].next_sibling = next;
            },
            None => {
                updated_list.first = next;
            },
        }
        match next {
            Some(q) => {
                self.rules[q.0 as usize].previous_sibling = previous;
            },
            None => {
                updated_list.last = previous;
            },
        }
        updated_list.live_len = updated_list.live_len - 1;
        self.rule_lists.set(li, updated_list);
        self.rules[x].previous_sibling = None;
        self.rules[x].next_sibling = None;
        self.rules[x].live = false;
        self.rules[x].revision = self.rules[x].revision.wrapping_add(1);
        if let Some(b) = declaration_block {
            let bi = b.0 as usize;
            let mut block = self.declaration_blocks[bi];
            block.live = false;
            block.revision = block.revision.wrapping_add(1);
            self.declaration_blocks.set(bi, block);
        }
        proof {
            let l = li as int;
            self.lists@ = pre.lists@.update(l, pre.lists@[l].remove(i));
            self.list_pos@ = Seq::new(pre.list_pos@.len(), |r: int| if pre.rules@[r].parent_list == list
                && pre.list_pos@[r] > i {
                pre.list_pos@[r] - 1
            } else {
                pre.list_pos@[r]
            });
            assert forall|y: int| 0 <= y < pre.rules@.len() && y != x implies #[trigger] self.rules@[y]
                == unlinked_siblings(pre.rules@[y], y, previous, next) by {}
            assert(self.is_rule_retire_step(&pre, id)) by {
                reveal(AstContext::is_rule_retire_step);
            }
            Self::lemma_rule_retire_step(pre, *self, id);
        }
        Ok(RetiredRule { id, list, previous, next, declaration_block })
    }

    /// `self` is `pre` after the store and link updates of retiring rule `id`.
    #[verifier::opaque]
    closed spec fn is_rule_retire_step(&self, pre: &Self, id: RuleId) -> bool {
        let x = id.0 as int;
        let rec = pre.rules@[x];
        let list = rec.parent_list;
        let l = list.0 as int;
        let old_list = pre.rule_lists@[l];
        let previous = rec.previous_sibling;
        let next = rec.next_sibling;
        let i = pre.list_pos@[x];
        &&& self.rules@.len() == pre.rules@.len()
        &&& self.rules@[x] == retired_record(rec)
        &&& forall|y: int| 0 <= y < pre.rules@.len() && y != x ==> #[trigger] self.rules@[y]
            == unlinked_siblings(pre.rules@[y], y, previous, next)
        &&& self.rule_lists@ == pre.rule_lists@.update(l, RuleList {
            first: if previous is None { next } else { old_list.first },
            last: if next is None { previous } else { old_list.last },
            live_len: (old_list.live_len - 1) as u32,
            parent: old_list.parent,
        })
        &&& self.declaration_blocks@ == (match rec.declaration_block {
            Some(b) => pre.declaration_blocks@.update(b.0 as int, retired_block(pre.declaration_blocks@[b.0 as int])),
            None => pre.declaration_blocks@,
        })
        &&& self.lists@ == pre.lists@.update(l, pre.lists@[l].remove(i))
        &&& self.list_pos@ == Seq::new(pre.list_pos@.len(), |r: int| if pre.rules@[r].parent_list == list
            && pre.list_pos@[r] > i {
            pre.list_pos@[r] - 1
        } else {
            pre.list_pos@[r]
        })
        &&& self.rule_spans@ == pre.rule_spans@
        &&& self.stylesheet == pre.stylesheet
        &&& self.license_comments@ == pre.license_comments@
        &&& self.declarations@ == pre.declarations@
        &&& self.effective_keys@ == pre.effective_keys@
        &&& self.effective_key_ids == pre.effective_key_ids
        &&& self.first_rule_in_source == pre.first_rule_in_source
        &&& self.last_rule_in_source == pre.last_rule_in_source
        &&& self.source@ == pre.source@
        &&& self.source_pos@ == pre.source_pos@
        &&& self.chains@ == pre.chains@
        &&& self.decl_owner@ == pre.decl_owner@
        &&& self.decl_pos@ == pre.decl_pos@
    }

    /// Shared requirements of the rule retirement step lemmas.
    closed spec fn rule_retire_step_requires(pre: Self, post: Self, id: RuleId) -> bool {
        &&& pre.wf()
        &&& 0 <= id.0 < pre.rules@.len()
        &&& pre.rules@[id.0 as int].live
        &&& pre.rules@[id.0 as int].child_list is None
        &&& post.is_rule_retire_step(&pre, id)
    }

    /// A rule retirement step keeps list members and sibling links consistent.
    proof fn lemma_rule_retire_list_members(pre: Self, post: Self, id: RuleId)
        requires
            Self::rule_retire_step_requires(pre, post, id),
        ensures
            forall|m: int, k: int| 0 <= m < post.rule_lists@.len() && 0 <= k < post.lists@[m].len() ==> {
                let r = #[trigger] post.lists@[m][k];
                &&& r < post.rules@.len()
                &&& post.rules@[r as int].live
                &&& post.rules@[r as int].parent_list == RuleListId(m as u32)
                &&& post.list_pos@[r as int] == k
                &&& post.rules@[r as int].previous_sibling == rule_at(post.lists@[m], k - 1)
                &&& post.rules@[r as int].next_sibling == rule_at(post.lists@[m], k + 1)
            },
            forall|m: int| 0 <= m < post.rule_lists@.len() ==> {
                let q = #[trigger] post.lists@[m];
                &&& q.len() == post.rule_lists@[m].live_len
                &&& post.rule_lists@[m].first == rule_at(q, 0)
                &&& post.rule_lists@[m].last == rule_at(q, q.len() - 1)
            },
    {
        reveal(AstContext::is_rule_retire_step);
        pre.lemma_retire_preconditions(id.0 as int);
        reveal(AstContext::wf_lists);
        reveal(AstContext::wf_sizes);
        let x = id.0 as int;
        let rec = pre.rules@[x];
        let list = rec.parent_list;
        let l = list.0 as int;
        let ls = pre.lists@[l];
        let i = pre.list_pos@[x];
        let nl = pre.rule_lists@.len();
        ls.remove_ensures(i);
        assert forall|m: int, k: int| 0 <= m < nl && 0 <= k < post.lists@[m].len() implies {
            let r = #[trigger] post.lists@[m][k];
            &&& r < post.rules@.len()
            &&& post.rules@[r as int].live
            &&& post.rules@[r as int].parent_list == RuleListId(m as u32)
            &&& post.list_pos@[r as int] == k
            &&& post.rules@[r as int].previous_sibling == rule_at(post.lists@[m], k - 1)
            &&& post.rules@[r as int].next_sibling == rule_at(post.lists@[m], k + 1)
        } by {
            if m != l {
                let r = pre.lists@[m][k];
                assert(post.lists@[m] == pre.lists@[m]);
                assert(pre.rules@[r as int].parent_list == RuleListId(m as u32));
                if rec.previous_sibling == Some(RuleId(r)) {
                    assert(ls[i - 1] == r);
                }
                if rec.next_sibling == Some(RuleId(r)) {
                    assert(ls[i + 1] == r);
                }
                assert(r != x);
            } else {
                let r = post.lists@[m][k];
                if k < i {
                    assert(r == ls[k]);
                    assert(pre.list_pos@[r as int] == k);
                    if k > 0 {
                        assert(post.lists@[m][k - 1] == ls[k - 1]);
                    }
                    if k + 1 < i {
                        assert(post.lists@[m][k + 1] == ls[k + 1]);
                    } else if k + 1 < post.lists@[m].len() {
                        assert(post.lists@[m][k + 1] == ls[k + 2]);
                    }
                    if i + 1 < ls.len() {
                        assert(pre.list_pos@[ls[i + 1] as int] == i + 1);
                    }
                } else {
                    assert(r == ls[k + 1]);
                    assert(pre.list_pos@[r as int] == k + 1);
                    if k > i {
                        assert(post.lists@[m][k - 1] == ls[k]);
                    } else if k > 0 {
                        assert(post.lists@[m][k - 1] == ls[k - 1]);
                    }
                    if k + 1 < post.lists@[m].len() {
                        assert(post.lists@[m][k + 1] == ls[k + 2]);
                    }
                    if i > 0 {
                        assert(pre.list_pos@[ls[i - 1] as int] == i - 1);
                    }
                }
            }
        }
        assert forall|m: int| 0 <= m < nl implies {
            let q = #[trigger] post.lists@[m];
            &&& q.len() == post.rule_lists@[m].live_len
            &&& post.rule_lists@[m].first == rule_at(q, 0)
            &&& post.rule_lists@[m].last == rule_at(q, q.len() - 1)
        } by {
            if m != l {
                assert(post.lists@[m] == pre.lists@[m]);
                assert(post.rule_lists@[m] == pre.rule_lists@[m]);
            } else {
                let q = post.lists@[m];
                if q.len() > 0 {
                    if i == 0 {
                        assert(q[0] == ls[1]);
                    } else {
                        assert(q[0] == ls[0]);
                    }
                    if i == ls.len() - 1 {
                        assert(q[q.len() - 1] == ls[ls.len() - 2]);
                    } else {
                        assert(q[q.len() - 1] == ls[ls.len() - 1]);
                    }
                }
                assert(ls[0] == x ==> i == 0) by {
                    assert(pre.list_pos@[ls[0] as int] == 0);
                }
                assert(ls[ls.len() - 1] == x ==> i == ls.len() - 1) by {
                    assert(pre.list_pos@[ls[ls.len() - 1] as int] == ls.len() - 1);
                }
            }
        }
    }

    /// A rule retirement step keeps the context well formed.
    proof fn lemma_rule_retire_wf(pre: Self, post: Self, id: RuleId)
        requires
            Self::rule_retire_step_requires(pre, post, id),
        ensures
            post.wf(),
    {
        pre.lemma_retire_preconditions(id.0 as int);
        Self::lemma_rule_retire_list_members(pre, post, id);
        reveal(AstContext::is_rule_retire_step);
        let x = id.0 as int;
        let rec = pre.rules@[x];
        let l = rec.parent_list.0 as int;
        let i = pre.list_pos@[x];
        let nb = pre.declaration_blocks@.len();
        assert(post.wf_sizes()) by {
            reveal(AstContext::wf_sizes);
        }
        assert(post.wf_source()) by {
            Self::lemma_frame_source(pre, post);
        }
        assert(post.wf_keys()) by {
            Self::lemma_frame_keys(pre, post);
        }
        assert(post.wf_lists()) by {
            reveal(AstContext::wf_lists);
            reveal(AstContext::wf_sizes);
            let nl = pre.rule_lists@.len();
            assert forall|r: int| 0 <= r < pre.rules@.len() implies {
                let rr = #[trigger] post.rules@[r];
                &&& (rr.parent_list.0 as int) < nl
                &&& rr.parent == post.rule_lists@[rr.parent_list.0 as int].parent
                &&& (rr.live ==> 0 <= post.list_pos@[r] < post.lists@[rr.parent_list.0 as int].len()
                    && post.lists@[rr.parent_list.0 as int][post.list_pos@[r]] == r)
                &&& (!rr.live ==> rr.previous_sibling is None && rr.next_sibling is None)
            } by {
                let ls = pre.lists@[l];
                ls.remove_ensures(i);
                if r != x {
                    let pl = pre.rules@[r].parent_list.0 as int;
                    if pre.rules@[r].live && pl == l {
                        let p = pre.list_pos@[r];
                        assert(ls[p] == r);
                        assert(p != i);
                        if p > i {
                            assert(post.lists@[pl][p - 1] == ls[p]);
                        }
                    }
                    if !pre.rules@[r].live {
                        if rec.previous_sibling == Some(RuleId(r as u32)) {
                            assert(ls[i - 1] == r);
                        }
                        if rec.next_sibling == Some(RuleId(r as u32)) {
                            assert(ls[i + 1] == r);
                        }
                    }
                }
            }
        }
        assert(post.wf_tree()) by {
            reveal(AstContext::wf_tree);
            assert forall|m: int| 0 <= m < post.rule_lists@.len() implies match (#[trigger] post.rule_lists@[m]).parent {
                Some(p) => (p.0 as int) < post.rules@.len() && post.rules@[p.0 as int].live
                    && post.rules@[p.0 as int].child_list == Some(RuleListId(m as u32)),
                None => true,
            } by {
                assert(post.rule_lists@[m].parent == pre.rule_lists@[m].parent);
                if pre.rule_lists@[m].parent == Some(RuleId(x as u32)) {
                    assert(pre.rules@[x].child_list == Some(RuleListId(m as u32)));
                }
            }
            assert forall|r: int| 0 <= r < post.rules@.len() implies {
                let rr = #[trigger] post.rules@[r];
                &&& (rr.child_list matches Some(c) ==> (c.0 as int) < post.rule_lists@.len()
                    && post.rule_lists@[c.0 as int].parent == Some(RuleId(r as u32)))
                &&& (rr.parent matches Some(p) ==> (p.0 as int) < r)
            } by {
                if let Some(c) = pre.rules@[r].child_list {
                    assert(post.rule_lists@[c.0 as int].parent == pre.rule_lists@[c.0 as int].parent);
                }
            }
        }
        assert(post.wf_blocks()) by {
            reveal(AstContext::wf_blocks);
            reveal(AstContext::wf_sizes);
            assert forall|b: int| 0 <= b < nb implies {
                let c = #[trigger] post.chains@[b];
                let br = post.declaration_blocks@[b];
                &&& c.len() == br.declaration_count
                &&& br.first_declaration == declaration_at(c, 0)
                &&& br.last_declaration == declaration_at(c, c.len() - 1)
                &&& (br.owner->Rule_0.0 as int) < post.rules@.len()
                &&& post.rules@[br.owner->Rule_0.0 as int].declaration_block == Some(DeclarationBlockId(b as u32))
                &&& br.live == post.rules@[br.owner->Rule_0.0 as int].live
                &&& (br.effective_key.0 as int) < post.effective_keys@.len()
            } by {
                assert(post.chains@[b] == pre.chains@[b]);
                if rec.declaration_block != Some(DeclarationBlockId(b as u32)) {
                    assert(post.declaration_blocks@[b] == pre.declaration_blocks@[b]);
                    assert(pre.declaration_blocks@[b].owner != DeclarationBlockOwner::Rule(RuleId(x as u32)));
                }
            }
            assert forall|b: int, k: int| 0 <= b < nb && 0 <= k < post.chains@[b].len() implies {
                let d = #[trigger] post.chains@[b][k];
                &&& d < post.declarations@.len()
                &&& post.decl_owner@[d as int] == b
                &&& post.decl_pos@[d as int] == k
                &&& post.declarations@[d as int].next_in_block == declaration_at(post.chains@[b], k + 1)
            } by {
                assert(post.chains@[b] == pre.chains@[b]);
            }
        }
    }

    /// A rule retirement step keeps the context well formed and retires
    /// exactly rule `id` and its block.
    proof fn lemma_rule_retire_step(pre: Self, post: Self, id: RuleId)
        requires
            Self::rule_retire_step_requires(pre, post, id),
        ensures
            post.wf(),
            post.is_rule_retirement_of(&pre, id),
    {
        Self::lemma_rule_retire_wf(pre, post, id);
        pre.lemma_retire_preconditions(id.0 as int);
        reveal(AstContext::is_rule_retire_step);
        let x = id.0 as int;
        let rec = pre.rules@[x];
        let l = rec.parent_list.0 as int;
        let ls = pre.lists@[l];
        let i = pre.list_pos@[x];
        assert(RuleId(x as u32) == id);
        assert(pre.lists@.len() == pre.rule_lists@.len() && pre.chains@.len() == pre.declaration_blocks@.len()) by {
            reveal(AstContext::wf_lists);
            reveal(AstContext::wf_blocks);
        }
        assert(ls[0] == x ==> i == 0) by {
            reveal(AstContext::wf_lists);
            assert(pre.list_pos@[ls[0] as int] == 0);
        }
        assert(ls[ls.len() - 1] == x ==> i == ls.len() - 1) by {
            reveal(AstContext::wf_lists);
            assert(pre.list_pos@[ls[ls.len() - 1] as int] == ls.len() - 1);
        }
        assert forall|b: int| 0 <= b < pre.block_count() implies #[trigger] post.spec_block(b) == (
            if rec.declaration_block == Some(DeclarationBlockId(b as u32)) {
                retired_block(pre.spec_block(b))
            } else {
                pre.spec_block(b)
            }) by {
            reveal(AstContext::wf_sizes);
        }
    }

    /// Facts about a well-formed context that retiring the live leaf rule
    /// `x` relies on.
    proof fn lemma_retire_preconditions(&self, x: int)
        requires
            self.wf(),
            0 <= x < self.rules@.len(),
            self.rules@[x].live,
        ensures
            ({
                let rec = self.rules@[x];
                let l = rec.parent_list.0 as int;
                let ls = self.lists@[l];
                let i = self.list_pos@[x];
                &&& 0 <= l < self.rule_lists@.len()
                &&& 0 <= i < ls.len()
                &&& ls[i] == x
                &&& self.rule_lists@[l].live_len == ls.len()
                &&& self.rule_lists@[l].first == rule_at(ls, 0)
                &&& self.rule_lists@[l].last == rule_at(ls, ls.len() - 1)
                &&& rec.previous_sibling == rule_at(ls, i - 1)
                &&& rec.next_sibling == rule_at(ls, i + 1)
                &&& (rec.previous_sibling matches Some(p) ==> (p.0 as int) < self.rules@.len()
                    && self.rules@[p.0 as int].live && self.rules@[p.0 as int].next_sibling == Some(RuleId(x as u32)))
                &&& (rec.next_sibling matches Some(q) ==> (q.0 as int) < self.rules@.len()
                    && self.rules@[q.0 as int].live && self.rules@[q.0 as int].previous_sibling == Some(RuleId(x as u32)))
                &&& (rec.declaration_block matches Some(b) ==> (b.0 as int) < self.declaration_blocks@.len()
                    && self.declaration_blocks@[b.0 as int].live
                    && self.declaration_blocks@[b.0 as int].owner == DeclarationBlockOwner::Rule(RuleId(x as u32)))
            }),
            self.rules@.len() <= DENSE_CAPACITY,
            self.rules@[x].previous_sibling matches Some(p) ==> p.0 != x,
            self.rules@[x].next_sibling matches Some(q) ==> q.0 != x,
            self.rules@[x].previous_sibling is Some && self.rules@[x].next_sibling is Some
                ==> self.rules@[x].previous_sibling != self.rules@[x].next_sibling,
    {
        reveal(AstContext::wf_lists);
        reveal(AstContext::wf_blocks);
        reveal(AstContext::wf_sizes);
        let rec = self.rules@[x];
        let l = rec.parent_list.0 as int;
        let ls = self.lists@[l];
        let i = self.list_pos@[x];
        if i > 0 {
            assert(ls[i - 1] < self.rules@.len());
            assert(self.list_pos@[ls[i - 1] as int] == i - 1);
        }
        if i + 1 < ls.len() {
            assert(ls[i + 1] < self.rules@.len());
            assert(self.list_pos@[ls[i + 1] as int] == i + 1);
        }
        if let Some(b) = rec.declaration_block {
            assert(self.chains@[b.0 as int] == self.chains@[b.0 as int]);
        }
    }
}

} // verus!
